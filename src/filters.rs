//! Whole-buffer point filters and neighbourhood filters.

use vstd::prelude::*;
use crate::pixels::{
    chan,
    clamp_spec,
    clamp_channel,
    copy_bytes,
    in_bounds,
    index,
    lemma_pixel_bytes,
    lemma_pixel_in_buffer,
    lemma_pixel_of_injective,
    pixel_of,
};

verus! {

/// Channel `c` of a pixel after inversion.
pub open spec fn inverted(s: Seq<u8>, p: int, c: int) -> u8 {
    if c < 3 {
        (255 - chan(s, p, c)) as u8
    } else {
        chan(s, p, c)
    }
}

/// Replaces each colour channel by its complement; alpha is kept.
pub fn invert(buf: &mut Vec<u8>)
    requires
        old(buf)@.len() % 4 == 0,
    ensures
        final(buf)@.len() == old(buf)@.len(),
        forall|p: int, c: int|
            0 <= p < old(buf)@.len() / 4 && 0 <= c < 4 ==> #[trigger] chan(final(buf)@, p, c)
                == inverted(old(buf)@, p, c),
{
    let ghost s0 = buf@;
    let n = buf.len() / 4;
    let mut p: usize = 0;
    while p < n
        invariant
            buf@.len() == s0.len(),
            s0.len() <= usize::MAX,
            n == s0.len() / 4,
            s0.len() % 4 == 0,
            p <= n,
            forall|q: int, c: int|
                0 <= q < p && 0 <= c < 4 ==> #[trigger] chan(buf@, q, c) == inverted(s0, q, c),
            forall|q: int, c: int|
                p <= q < n && 0 <= c < 4 ==> #[trigger] chan(buf@, q, c) == chan(s0, q, c),
        decreases n - p,
    {
        proof {
            lemma_pixel_bytes(p as int, s0.len() as int);
        }
        let i = 4 * p;
        let ghost before = buf@;
        assert(chan(before, p as int, 0) == chan(s0, p as int, 0));
        assert(chan(before, p as int, 1) == chan(s0, p as int, 1));
        assert(chan(before, p as int, 2) == chan(s0, p as int, 2));
        assert(chan(before, p as int, 3) == chan(s0, p as int, 3));
        let r = buf[i];
        buf.set(i, 255 - r);
        let g = buf[i + 1];
        buf.set(i + 1, 255 - g);
        let b = buf[i + 2];
        buf.set(i + 2, 255 - b);
        assert forall|q: int, c: int| 0 <= q < n && 0 <= c < 4 && q != p implies #[trigger] chan(
            buf@,
            q,
            c,
        ) == chan(before, q, c) by {
            assert(4 * q + c != 4 * p + 0);
            assert(4 * q + c != 4 * p + 1);
            assert(4 * q + c != 4 * p + 2);
        }
        assert(chan(buf@, p as int, 3) == chan(before, p as int, 3));
        p = p + 1;
    }
}

/// The luma of a colour, `0.299 R + 0.587 G + 0.114 B` rounded to the nearest integer.
pub open spec fn luma(r: int, g: int, b: int) -> int {
    (299 * r + 587 * g + 114 * b + 500) / 1000
}

/// Channel `c` of a pixel after conversion to grey.
pub open spec fn grayed(s: Seq<u8>, p: int, c: int) -> u8 {
    if c < 3 {
        luma(chan(s, p, 0) as int, chan(s, p, 1) as int, chan(s, p, 2) as int) as u8
    } else {
        chan(s, p, c)
    }
}

/// Channel `c` of a pixel after its colour channels are shifted by `factor`.
pub open spec fn brightened(s: Seq<u8>, p: int, c: int, factor: int) -> u8 {
    if c < 3 {
        clamp_spec(chan(s, p, c) + factor) as u8
    } else {
        chan(s, p, c)
    }
}

/// Sets the three colour channels of each pixel to its luma; alpha is kept.
pub fn grayscale(buf: &mut Vec<u8>)
    requires
        old(buf)@.len() % 4 == 0,
    ensures
        final(buf)@.len() == old(buf)@.len(),
        forall|p: int, c: int|
            0 <= p < old(buf)@.len() / 4 && 0 <= c < 4 ==> #[trigger] chan(final(buf)@, p, c)
                == grayed(old(buf)@, p, c),
{
    let ghost s0 = buf@;
    let n = buf.len() / 4;
    let mut p: usize = 0;
    while p < n
        invariant
            buf@.len() == s0.len(),
            s0.len() <= usize::MAX,
            n == s0.len() / 4,
            s0.len() % 4 == 0,
            p <= n,
            forall|q: int, c: int|
                0 <= q < p && 0 <= c < 4 ==> #[trigger] chan(buf@, q, c) == grayed(s0, q, c),
            forall|q: int, c: int|
                p <= q < n && 0 <= c < 4 ==> #[trigger] chan(buf@, q, c) == chan(s0, q, c),
        decreases n - p,
    {
        proof {
            lemma_pixel_bytes(p as int, s0.len() as int);
        }
        let i = 4 * p;
        let ghost before = buf@;
        assert(chan(before, p as int, 0) == chan(s0, p as int, 0));
        assert(chan(before, p as int, 1) == chan(s0, p as int, 1));
        assert(chan(before, p as int, 2) == chan(s0, p as int, 2));
        assert(chan(before, p as int, 3) == chan(s0, p as int, 3));
        let r = buf[i] as u32;
        let g = buf[i + 1] as u32;
        let b = buf[i + 2] as u32;
        let y = ((299 * r + 587 * g + 114 * b + 500) / 1000) as u8;
        buf.set(i, y);
        buf.set(i + 1, y);
        buf.set(i + 2, y);
        assert forall|q: int, c: int| 0 <= q < n && 0 <= c < 4 && q != p implies #[trigger] chan(
            buf@,
            q,
            c,
        ) == chan(before, q, c) by {
            assert(4 * q + c != 4 * p + 0);
            assert(4 * q + c != 4 * p + 1);
            assert(4 * q + c != 4 * p + 2);
        }
        assert(chan(buf@, p as int, 3) == chan(before, p as int, 3));
        p = p + 1;
    }
}

/// Adds `factor` to each colour channel, clamped to `0..=255`; alpha is kept.
pub fn brightness(buf: &mut Vec<u8>, factor: i32)
    requires
        old(buf)@.len() % 4 == 0,
    ensures
        final(buf)@.len() == old(buf)@.len(),
        forall|p: int, c: int|
            0 <= p < old(buf)@.len() / 4 && 0 <= c < 4 ==> #[trigger] chan(final(buf)@, p, c)
                == brightened(old(buf)@, p, c, factor as int),
{
    let ghost s0 = buf@;
    let n = buf.len() / 4;
    let mut p: usize = 0;
    while p < n
        invariant
            buf@.len() == s0.len(),
            s0.len() <= usize::MAX,
            n == s0.len() / 4,
            s0.len() % 4 == 0,
            p <= n,
            forall|q: int, c: int|
                0 <= q < p && 0 <= c < 4 ==> #[trigger] chan(buf@, q, c) == brightened(s0, q, c, factor as int),
            forall|q: int, c: int|
                p <= q < n && 0 <= c < 4 ==> #[trigger] chan(buf@, q, c) == chan(s0, q, c),
        decreases n - p,
    {
        proof {
            lemma_pixel_bytes(p as int, s0.len() as int);
        }
        let i = 4 * p;
        let ghost before = buf@;
        assert(chan(before, p as int, 0) == chan(s0, p as int, 0));
        assert(chan(before, p as int, 1) == chan(s0, p as int, 1));
        assert(chan(before, p as int, 2) == chan(s0, p as int, 2));
        assert(chan(before, p as int, 3) == chan(s0, p as int, 3));
        let d: i32 = if factor < -255 {
            -255
        } else if factor > 255 {
            255
        } else {
            factor
        };
        let r = buf[i] as i32;
        let v = clamp_channel(r + d);
        buf.set(i, v);
        let g = buf[i + 1] as i32;
        let v = clamp_channel(g + d);
        buf.set(i + 1, v);
        let b = buf[i + 2] as i32;
        let v = clamp_channel(b + d);
        buf.set(i + 2, v);
        assert forall|q: int, c: int| 0 <= q < n && 0 <= c < 4 && q != p implies #[trigger] chan(
            buf@,
            q,
            c,
        ) == chan(before, q, c) by {
            assert(4 * q + c != 4 * p + 0);
            assert(4 * q + c != 4 * p + 1);
            assert(4 * q + c != 4 * p + 2);
        }
        assert(chan(buf@, p as int, 3) == chan(before, p as int, 3));
        p = p + 1;
    }
}


/// Sum of channel `c` over the pixels `x0 <= x < x1` of row `y`.
pub open spec fn row_sum(s: Seq<u8>, width: int, c: int, y: int, x0: int, x1: int) -> int
    decreases x1 - x0,
{
    if x1 <= x0 {
        0
    } else {
        row_sum(s, width, c, y, x0, x1 - 1) + chan(s, pixel_of(width, x1 - 1, y), c)
    }
}

/// Sum of channel `c` over the rectangle `[x0, x1) x [y0, y1)`.
pub open spec fn rect_sum(s: Seq<u8>, width: int, c: int, x0: int, x1: int, y0: int, y1: int) -> int
    decreases y1 - y0,
{
    if y1 <= y0 {
        0
    } else {
        rect_sum(s, width, c, x0, x1, y0, y1 - 1) + row_sum(s, width, c, y1 - 1, x0, x1)
    }
}

/// First coordinate of a window of `radius` around `v`, clipped at zero.
pub open spec fn window_lo(v: int, radius: int) -> int {
    if v - radius < 0 {
        0
    } else {
        v - radius
    }
}

/// One past the last coordinate of a window of `radius` around `v`,
/// clipped at `limit`.
pub open spec fn window_hi(v: int, radius: int, limit: int) -> int {
    if v + radius + 1 > limit {
        limit
    } else {
        v + radius + 1
    }
}

/// Channel `c` of pixel `(x, y)` after a box blur of `radius`: the mean,
/// rounded down, of that channel over the part of the window on the grid.
pub open spec fn blurred(s: Seq<u8>, width: int, height: int, radius: int, x: int, y: int, c: int) -> int {
    let x0 = window_lo(x, radius);
    let x1 = window_hi(x, radius, width);
    let y0 = window_lo(y, radius);
    let y1 = window_hi(y, radius, height);
    rect_sum(s, width, c, x0, x1, y0, y1) / ((x1 - x0) * (y1 - y0))
}

/// A row sum is at most 255 per pixel.
proof fn lemma_row_sum_bound(s: Seq<u8>, width: int, c: int, y: int, x0: int, x1: int)
    requires
        x0 <= x1,
    ensures
        0 <= row_sum(s, width, c, y, x0, x1) <= 255 * (x1 - x0),
    decreases x1 - x0,
{
    if x1 > x0 {
        lemma_row_sum_bound(s, width, c, y, x0, x1 - 1);
    }
}

/// A rectangle sum is at most 255 per pixel.
proof fn lemma_rect_sum_bound(s: Seq<u8>, width: int, c: int, x0: int, x1: int, y0: int, y1: int)
    requires
        x0 <= x1,
        y0 <= y1,
    ensures
        0 <= rect_sum(s, width, c, x0, x1, y0, y1) <= 255 * ((x1 - x0) * (y1 - y0)),
    decreases y1 - y0,
{
    if y1 > y0 {
        lemma_rect_sum_bound(s, width, c, x0, x1, y0, y1 - 1);
        lemma_row_sum_bound(s, width, c, y1 - 1, x0, x1);
        assert((x1 - x0) * (y1 - 1 - y0) + (x1 - x0) == (x1 - x0) * (y1 - y0)) by (nonlinear_arith);
    }
}

/// Sum of channel `c` over the window `[x0, x1) x [y0, y1)` of the grid.
fn window_sum(s: &Vec<u8>, width: u32, height: u32, c: usize, x0: u32, x1: u32, y0: u32, y1: u32) -> (r:
    u128)
    requires
        s@.len() == width * height * 4,
        width * height * 4 <= usize::MAX,
        c < 4,
        x0 <= x1 <= width,
        y0 <= y1 <= height,
    ensures
        r == rect_sum(s@, width as int, c as int, x0 as int, x1 as int, y0 as int, y1 as int),
{
    let mut total: u128 = 0;
    let mut y: u32 = y0;
    while y < y1
        invariant
            y0 <= y <= y1,
            x0 <= x1 <= width,
            y1 <= height,
            c < 4,
            s@.len() == width * height * 4,
            width * height * 4 <= usize::MAX,
            total == rect_sum(s@, width as int, c as int, x0 as int, x1 as int, y0 as int, y as int),
        decreases y1 - y,
    {
        proof {
            lemma_rect_sum_bound(s@, width as int, c as int, x0 as int, x1 as int, y0 as int, y as int);
            assert((x1 - x0) * (y - y0) <= 0xffff_ffff * 0xffff_ffff) by (nonlinear_arith)
                requires
                    x1 - x0 <= 0xffff_ffff,
                    y - y0 <= 0xffff_ffff,
                    0 <= x1 - x0,
                    0 <= y - y0,
            ;
        }
        let mut row: u128 = 0;
        let mut x: u32 = x0;
        while x < x1
            invariant
                x0 <= x <= x1,
                x1 <= width,
                y < height,
                c < 4,
                s@.len() == width * height * 4,
                width * height * 4 <= usize::MAX,
                row == row_sum(s@, width as int, c as int, y as int, x0 as int, x as int),
            decreases x1 - x,
        {
            proof {
                lemma_row_sum_bound(s@, width as int, c as int, y as int, x0 as int, x as int);
            }
            let i = index(width, height, x, y);
            row = row + s[i + c] as u128;
            x = x + 1;
        }
        proof {
            lemma_row_sum_bound(s@, width as int, c as int, y as int, x0 as int, x1 as int);
        }
        total = total + row;
        y = y + 1;
    }
    total
}

/// Replaces every channel of every pixel, alpha included, by its mean over
/// the `(2 * radius + 1)`-square window around the pixel, clipped to the grid.
/// All means are taken over the buffer as it was before the call.
pub fn blur(buf: &mut Vec<u8>, width: u32, height: u32, radius: u32)
    requires
        old(buf)@.len() == width * height * 4,
        width * height * 4 <= usize::MAX,
    ensures
        final(buf)@.len() == old(buf)@.len(),
        forall|x: int, y: int, c: int|
            in_bounds(width as int, height as int, x, y) && 0 <= c < 4 ==> #[trigger] chan(
                final(buf)@,
                pixel_of(width as int, x, y),
                c,
            ) == blurred(old(buf)@, width as int, height as int, radius as int, x, y, c),
{
    let ghost s0 = buf@;
    let mut out = copy_bytes(buf);
    let mut y: u32 = 0;
    while y < height
        invariant
            y <= height,
            buf@ == s0,
            out@.len() == s0.len(),
            s0.len() == width * height * 4,
            width * height * 4 <= usize::MAX,
            forall|a: int, b: int, c: int|
                in_bounds(width as int, y as int, a, b) && 0 <= c < 4 ==> #[trigger] chan(
                    out@,
                    pixel_of(width as int, a, b),
                    c,
                ) == blurred(s0, width as int, height as int, radius as int, a, b, c),
        decreases height - y,
    {
        let y0: u32 = if y < radius { 0 } else { y - radius };
        let y1: u32 = if (y as u64) + (radius as u64) + 1 > height as u64 {
            height
        } else {
            y + radius + 1
        };
        let mut x: u32 = 0;
        while x < width
            invariant
                x <= width,
                y < height,
                buf@ == s0,
                out@.len() == s0.len(),
                s0.len() == width * height * 4,
                width * height * 4 <= usize::MAX,
                y0 == window_lo(y as int, radius as int),
                y1 == window_hi(y as int, radius as int, height as int),
                forall|a: int, b: int, c: int|
                    (in_bounds(width as int, y as int, a, b) || (b == y && 0 <= a < x)) && 0 <= c < 4
                        ==> #[trigger] chan(out@, pixel_of(width as int, a, b), c) == blurred(
                        s0,
                        width as int,
                        height as int,
                        radius as int,
                        a,
                        b,
                        c,
                    ),
            decreases width - x,
        {
            let x0: u32 = if x < radius { 0 } else { x - radius };
            let x1: u32 = if (x as u64) + (radius as u64) + 1 > width as u64 {
                width
            } else {
                x + radius + 1
            };
            let ghost o0 = out@;
            let i = index(width, height, x, y);
            proof {
                assert((x1 - x0) * (y1 - y0) <= 0xffff_ffff * 0xffff_ffff) by (nonlinear_arith)
                    requires
                        0 <= x1 - x0 <= 0xffff_ffff,
                        0 <= y1 - y0 <= 0xffff_ffff,
                ;
            }
            let count: u128 = (x1 - x0) as u128 * (y1 - y0) as u128;
            proof {
                assert(0 < (x1 - x0) * (y1 - y0)) by (nonlinear_arith)
                    requires
                        x0 < x1,
                        y0 < y1,
                ;
            }
            let mut c: usize = 0;
            while c < 4
                invariant
                    c <= 4,
                    x < width,
                    y < height,
                    buf@ == s0,
                    out@.len() == s0.len(),
                    s0.len() == width * height * 4,
                    width * height * 4 <= usize::MAX,
                    i == 4 * pixel_of(width as int, x as int, y as int),
                    i + 3 < s0.len(),
                    x0 == window_lo(x as int, radius as int),
                    x1 == window_hi(x as int, radius as int, width as int),
                    y0 == window_lo(y as int, radius as int),
                    y1 == window_hi(y as int, radius as int, height as int),
                    count == (x1 - x0) * (y1 - y0),
                    count > 0,
                    forall|k: int| 0 <= k < s0.len() && (k < i || k >= i + c) ==> out@[k] == o0[k],
                    forall|k: int| 0 <= k < c ==> out@[i + k] == blurred(
                        s0,
                        width as int,
                        height as int,
                        radius as int,
                        x as int,
                        y as int,
                        k,
                    ),
                decreases 4 - c,
            {
                let sum = window_sum(buf, width, height, c, x0, x1, y0, y1);
                proof {
                    lemma_rect_sum_bound(s0, width as int, c as int, x0 as int, x1 as int, y0 as int, y1 as int);
                    assert(sum / count <= 255) by (nonlinear_arith)
                        requires
                            sum <= 255 * count,
                            count > 0,
                    ;
                }
                out.set(i + c, (sum / count) as u8);
                c = c + 1;
            }
            proof {
                assert forall|a: int, b: int, c: int|
                    (in_bounds(width as int, y as int, a, b) || (b == y && 0 <= a < x + 1)) && 0 <= c < 4
                        implies #[trigger] chan(out@, pixel_of(width as int, a, b), c) == blurred(
                        s0,
                        width as int,
                        height as int,
                        radius as int,
                        a,
                        b,
                        c,
                    ) by {
                    if a != x || b != y {
                        lemma_pixel_of_injective(width as int, a, b, x as int, y as int);
                        lemma_pixel_in_buffer(width as int, height as int, a, b);
                        assert(chan(o0, pixel_of(width as int, a, b), c) == blurred(
                            s0,
                            width as int,
                            height as int,
                            radius as int,
                            a,
                            b,
                            c,
                        ));
                    }
                }
            }
            x = x + 1;
        }
        y = y + 1;
    }
    *buf = out;
}

/// Channel `c` of pixel `(x, y)` after sharpening: colour channels of
/// interior pixels take `5 * centre - left - right - up - down`, clamped to
/// `0..=255`; border pixels and alpha keep their value.
pub open spec fn sharpened(s: Seq<u8>, width: int, height: int, x: int, y: int, c: int) -> int {
    if 1 <= x < width - 1 && 1 <= y < height - 1 && c < 3 {
        clamp_spec(
            5 * chan(s, pixel_of(width, x, y), c) - chan(s, pixel_of(width, x - 1, y), c) - chan(
                s,
                pixel_of(width, x + 1, y),
                c,
            ) - chan(s, pixel_of(width, x, y - 1), c) - chan(s, pixel_of(width, x, y + 1), c),
        )
    } else {
        chan(s, pixel_of(width, x, y), c) as int
    }
}


/// The pixels already visited by a row-major sweep that stands at `(x, y)`.
pub open spec fn swept(x: int, y: int, a: int, b: int) -> bool {
    b < y || (b == y && a < x)
}

/// Sharpens colour channels with the kernel `[[0, -1, 0], [-1, 5, -1],
/// [0, -1, 0]]` on interior pixels only, reading the buffer as it was before
/// the call; the one-pixel border and every alpha channel are kept.
pub fn sharpen(buf: &mut Vec<u8>, width: u32, height: u32)
    requires
        old(buf)@.len() == width * height * 4,
        width * height * 4 <= usize::MAX,
    ensures
        final(buf)@.len() == old(buf)@.len(),
        forall|x: int, y: int, c: int|
            in_bounds(width as int, height as int, x, y) && 0 <= c < 4 ==> #[trigger] chan(
                final(buf)@,
                pixel_of(width as int, x, y),
                c,
            ) == sharpened(old(buf)@, width as int, height as int, x, y, c),
{
    let ghost s0 = buf@;
    let ghost w = width as int;
    let ghost h = height as int;
    let mut out = copy_bytes(buf);
    let mut y: u32 = 1;
    while (y as u64) + 1 < height as u64
        invariant
            1 <= y,
            y < height || height <= 1,
            buf@ == s0,
            out@.len() == s0.len(),
            s0.len() == width * height * 4,
            width * height * 4 <= usize::MAX,
            w == width,
            h == height,
            forall|a: int, b: int, c: int|
                in_bounds(w, h, a, b) && 0 <= c < 4 ==> #[trigger] chan(out@, pixel_of(w, a, b), c)
                    == if b < y {
                    sharpened(s0, w, h, a, b, c)
                } else {
                    chan(s0, pixel_of(w, a, b), c) as int
                },
        decreases height - y,
    {
        let mut x: u32 = 1;
        while (x as u64) + 1 < width as u64
            invariant
                1 <= x,
                x < width || width <= 1,
                1 <= y,
                y + 1 < height,
                buf@ == s0,
                out@.len() == s0.len(),
                s0.len() == width * height * 4,
                width * height * 4 <= usize::MAX,
                w == width,
                h == height,
                forall|a: int, b: int, c: int|
                    in_bounds(w, h, a, b) && 0 <= c < 4 ==> #[trigger] chan(out@, pixel_of(w, a, b), c)
                        == if swept(x as int, y as int, a, b) {
                        sharpened(s0, w, h, a, b, c)
                    } else {
                        chan(s0, pixel_of(w, a, b), c) as int
                    },
            decreases width - x,
        {
            let ghost o0 = out@;
            let i = index(width, height, x, y);
            let il = index(width, height, x - 1, y);
            let ir = index(width, height, x + 1, y);
            let iu = index(width, height, x, y - 1);
            let id = index(width, height, x, y + 1);
            let mut c: usize = 0;
            while c < 3
                invariant
                    c <= 3,
                    1 <= x,
                    x + 1 < width,
                    1 <= y,
                    y + 1 < height,
                    buf@ == s0,
                    out@.len() == s0.len(),
                    s0.len() == width * height * 4,
                    i == 4 * pixel_of(w, x as int, y as int),
                    il == 4 * pixel_of(w, x - 1, y as int),
                    ir == 4 * pixel_of(w, x + 1, y as int),
                    iu == 4 * pixel_of(w, x as int, y - 1),
                    id == 4 * pixel_of(w, x as int, y + 1),
                    i + 3 < s0.len(),
                    il + 3 < s0.len(),
                    ir + 3 < s0.len(),
                    iu + 3 < s0.len(),
                    id + 3 < s0.len(),
                    w == width,
                    h == height,
                    forall|k: int| 0 <= k < s0.len() && (k < i || k >= i + c) ==> out@[k] == o0[k],
                    forall|k: int|
                        0 <= k < c ==> out@[i + k] == sharpened(s0, w, h, x as int, y as int, k),
                decreases 3 - c,
            {
                let v: i32 = 5 * (buf[i + c] as i32) - (buf[il + c] as i32) - (buf[ir + c] as i32)
                    - (buf[iu + c] as i32) - (buf[id + c] as i32);
                out.set(i + c, clamp_channel(v));
                c = c + 1;
            }
            proof {
                assert forall|a: int, b: int, c: int|
                    in_bounds(w, h, a, b) && 0 <= c < 4 implies #[trigger] chan(
                    out@,
                    pixel_of(w, a, b),
                    c,
                ) == if swept(x + 1, y as int, a, b) {
                    sharpened(s0, w, h, a, b, c)
                } else {
                    chan(s0, pixel_of(w, a, b), c) as int
                } by {
                    if a != x || b != y {
                        lemma_pixel_of_injective(w, a, b, x as int, y as int);
                        lemma_pixel_in_buffer(w, h, a, b);
                        assert(chan(out@, pixel_of(w, a, b), c) == chan(o0, pixel_of(w, a, b), c));
                    } else if c == 3 {
                        assert(chan(out@, pixel_of(w, a, b), c) == chan(o0, pixel_of(w, a, b), c));
                    }
                }
            }
            x = x + 1;
        }
        y = y + 1;
    }
    *buf = out;
}

} // verus!
