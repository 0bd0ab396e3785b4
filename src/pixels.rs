//! Layout of an RGBA byte buffer and the channel arithmetic shared by the
//! painting and filtering operations.

use vstd::prelude::*;

verus! {

/// Channel `c` of pixel number `p` (pixels counted row-major).
pub open spec fn chan(s: Seq<u8>, p: int, c: int) -> u8 {
    s[4 * p + c]
}

/// Pixel number of the coordinate `(x, y)` in a buffer `width` pixels wide.
pub open spec fn pixel_of(width: int, x: int, y: int) -> int {
    y * width + x
}

/// `v` clamped into the range of a channel byte.
pub open spec fn clamp_spec(v: int) -> int {
    if v < 0 {
        0
    } else if v > 255 {
        255
    } else {
        v
    }
}

/// `n / d` rounded to the nearest integer, halves away from zero.
pub open spec fn round_div(n: int, d: int) -> int
    recommends
        d > 0,
{
    if n >= 0 {
        (n + d / 2) / d
    } else {
        -((-n + d / 2) / d)
    }
}

/// The four bytes of pixel `p` lie inside a buffer of `len` bytes.
pub proof fn lemma_pixel_bytes(p: int, len: int)
    requires
        0 <= p < len / 4,
        len % 4 == 0,
    ensures
        0 <= 4 * p,
        4 * p + 3 < len,
{
}

/// An RGBA colour.
pub type Rgba = (u8, u8, u8, u8);

/// The colour of pixel number `p`.
pub open spec fn color(s: Seq<u8>, p: int) -> Rgba {
    (chan(s, p, 0), chan(s, p, 1), chan(s, p, 2), chan(s, p, 3))
}

/// The colour at `(x, y)` in a buffer `width` pixels wide.
pub open spec fn color_xy(s: Seq<u8>, width: int, x: int, y: int) -> Rgba {
    color(s, pixel_of(width, x, y))
}

/// `(x, y)` lies on a `width` by `height` grid.
pub open spec fn in_bounds(width: int, height: int, x: int, y: int) -> bool {
    0 <= x < width && 0 <= y < height
}

/// A coordinate on the grid names a pixel inside the buffer.
pub proof fn lemma_pixel_in_buffer(width: int, height: int, x: int, y: int)
    requires
        in_bounds(width, height, x, y),
    ensures
        0 <= pixel_of(width, x, y) < width * height,
        4 * pixel_of(width, x, y) + 3 < width * height * 4,
{
    assert(y * width + x < width * height) by (nonlinear_arith)
        requires
            0 <= x < width,
            0 <= y < height,
    ;
    assert(0 <= y * width) by (nonlinear_arith)
        requires
            0 <= x < width,
            0 <= y < height,
    ;
}

/// Offset of the first byte of pixel `(x, y)`.
pub fn index(width: u32, height: u32, x: u32, y: u32) -> (r: usize)
    requires
        in_bounds(width as int, height as int, x as int, y as int),
        width * height * 4 <= usize::MAX,
    ensures
        r == 4 * pixel_of(width as int, x as int, y as int),
        r + 3 < width * height * 4,
{
    proof {
        lemma_pixel_in_buffer(width as int, height as int, x as int, y as int);
        assert(0 <= (y as int) * (width as int) <= (y as int) * (width as int) + (x as int));
    }
    ((y as usize) * (width as usize) + (x as usize)) * 4
}

/// Distinct coordinates on a grid name distinct pixels.
pub proof fn lemma_pixel_of_injective(width: int, x: int, y: int, a: int, b: int)
    requires
        0 <= x < width,
        0 <= a < width,
        0 <= y,
        0 <= b,
        x != a || y != b,
    ensures
        pixel_of(width, x, y) != pixel_of(width, a, b),
{
    if y < b {
        assert(b * width - y * width >= width) by (nonlinear_arith)
            requires
                y < b,
                0 <= width,
        ;
    } else if b < y {
        assert(y * width - b * width >= width) by (nonlinear_arith)
            requires
                b < y,
                0 <= width,
        ;
    }
}

/// A copy of a byte vector.
pub fn copy_bytes(v: &Vec<u8>) -> (r: Vec<u8>)
    ensures
        r@ == v@,
{
    let r = v.clone();
    assert(r@ =~= v@);
    r
}

/// Clamps an integer into `0..=255`.
pub fn clamp_channel(value: i32) -> (r: u8)
    ensures
        r as int == clamp_spec(value as int),
{
    if value < 0 {
        0
    } else if value > 255 {
        255
    } else {
        value as u8
    }
}

} // verus!
