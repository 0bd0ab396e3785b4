//! Brush dabs composited onto the buffer: painting blends toward the brush
//! colour and only ever raises alpha; erasing scales alpha toward zero.

use vstd::prelude::*;
use crate::pixels::{in_bounds, pixel_of, index, round_div};

verus! {

/// Full falloff: the weight of a dab at its centre.
pub const FALLOFF_ONE: u32 = 65536;

/// Full opacity, in thousandths.
pub const OPACITY_ONE: u32 = 1000;

/// Scale of a dab's strength, `falloff * opacity`.
pub const STRENGTH_ONE: u64 = 65_536_000;

/// Brush parameters. `size` is the dab diameter in thousandths of a pixel;
/// `softness` and `opacity` are in thousandths (`1000` is `1.0`).
#[derive(Clone, Copy, Debug, PartialEq, Eq, Structural)]
pub struct BrushOptions {
    pub size: u32,
    pub softness: u32,
    pub opacity: u32,
    pub color_r: u8,
    pub color_g: u8,
    pub color_b: u8,
}

impl BrushOptions {
    /// Brush options from their parts, as given.
    pub fn new(size: u32, softness: u32, opacity: u32, color_r: u8, color_g: u8, color_b: u8) -> (r:
        BrushOptions)
        ensures
            r == (BrushOptions { size, softness, opacity, color_r, color_g, color_b }),
    {
        BrushOptions { size, softness, opacity, color_r, color_g, color_b }
    }
}

/// Opacity clamped into `0..=1000`.
pub open spec fn opacity_of(o: BrushOptions) -> int {
    if o.opacity > OPACITY_ONE {
        OPACITY_ONE as int
    } else {
        o.opacity as int
    }
}

/// The alpha a flood fill writes: `opacity * 255`, rounded.
pub open spec fn fill_alpha(o: BrushOptions) -> int {
    round_div(opacity_of(o) * 255, OPACITY_ONE as int)
}

/// One pixel under one brush dab: where it lies, and the dab's falloff there
/// in units of `1 / FALLOFF_ONE` (values above `FALLOFF_ONE` count as full).
#[derive(Clone, Copy, Debug, PartialEq, Eq, Structural)]
pub struct Touch {
    pub x: i64,
    pub y: i64,
    pub falloff: u32,
}

/// Strength of a touch, `falloff * opacity`, in units of `1 / STRENGTH_ONE`.
pub open spec fn strength(t: Touch, o: BrushOptions) -> int {
    let f = if t.falloff > FALLOFF_ONE {
        FALLOFF_ONE as int
    } else {
        t.falloff as int
    };
    f * opacity_of(o)
}

/// A colour channel blended toward `target` by strength `k`: the weighted
/// mean `(c * (1 - k) + target * k)`, rounded down.
pub open spec fn blend(c: int, target: int, k: int) -> int {
    (c * (STRENGTH_ONE - k) + target * k) / (STRENGTH_ONE as int)
}

/// Alpha after painting with strength `k`: the larger of the old alpha and
/// `255 * k`, rounded down.
pub open spec fn painted_alpha(a: int, k: int) -> int {
    let cover = (255 * k) / (STRENGTH_ONE as int);
    if a >= cover {
        a
    } else {
        cover
    }
}

/// Alpha after erasing with strength `k`: `a * (1 - k)`, rounded.
pub open spec fn erased_alpha(a: int, k: int) -> int {
    (a * (STRENGTH_ONE - k) + STRENGTH_ONE / 2) / (STRENGTH_ONE as int)
}

/// The buffer after one touch. Touches off the grid change nothing.
pub open spec fn touched(
    s: Seq<u8>,
    width: int,
    height: int,
    t: Touch,
    o: BrushOptions,
    erase: bool,
) -> Seq<u8> {
    if !in_bounds(width, height, t.x as int, t.y as int) {
        s
    } else {
        let i = 4 * pixel_of(width, t.x as int, t.y as int);
        let k = strength(t, o);
        if erase {
            s.update(i + 3, erased_alpha(s[i + 3] as int, k) as u8)
        } else {
            s.update(i, blend(s[i] as int, o.color_r as int, k) as u8).update(
                i + 1,
                blend(s[i + 1] as int, o.color_g as int, k) as u8,
            ).update(i + 2, blend(s[i + 2] as int, o.color_b as int, k) as u8).update(
                i + 3,
                painted_alpha(s[i + 3] as int, k) as u8,
            )
        }
    }
}

/// The buffer after the first `n` touches, in order.
pub open spec fn stamped(
    s: Seq<u8>,
    width: int,
    height: int,
    touches: Seq<Touch>,
    o: BrushOptions,
    erase: bool,
    n: int,
) -> Seq<u8>
    decreases n,
{
    if n <= 0 {
        s
    } else {
        touched(stamped(s, width, height, touches, o, erase, n - 1), width, height, touches[n - 1], o, erase)
    }
}

/// `c * (1 - k) + target * k`, rounded down, stays a channel value.
proof fn lemma_blend_bounds(c: int, target: int, k: int)
    requires
        0 <= c <= 255,
        0 <= target <= 255,
        0 <= k <= STRENGTH_ONE,
    ensures
        0 <= blend(c, target, k) <= 255,
        0 <= c * (STRENGTH_ONE - k) + target * k <= 255 * STRENGTH_ONE,
{
    let d = STRENGTH_ONE as int;
    assert(0 <= c * (d - k) <= 255 * (d - k)) by (nonlinear_arith)
        requires
            0 <= c <= 255,
            0 <= k <= d,
    ;
    assert(0 <= target * k <= 255 * k) by (nonlinear_arith)
        requires
            0 <= target <= 255,
            0 <= k,
    ;
}

/// Blends one channel toward `target` with strength `k`.
fn lerp(current: u8, target: u8, k: u64) -> (r: u8)
    requires
        k <= STRENGTH_ONE,
    ensures
        r as int == blend(current as int, target as int, k as int),
{
    proof {
        lemma_blend_bounds(current as int, target as int, k as int);
    }
    (((current as u64) * (STRENGTH_ONE - k) + (target as u64) * k) / STRENGTH_ONE) as u8
}

/// Applies one touch to the buffer.
fn touch(buf: &mut Vec<u8>, width: u32, height: u32, t: Touch, options: &BrushOptions, erase: bool)
    requires
        old(buf)@.len() == width * height * 4,
        width * height * 4 <= usize::MAX,
    ensures
        final(buf)@.len() == old(buf)@.len(),
        final(buf)@ == touched(old(buf)@, width as int, height as int, t, *options, erase),
{
    if t.x < 0 || t.y < 0 || t.x >= width as i64 || t.y >= height as i64 {
        return;
    }
    let i = index(width, height, t.x as u32, t.y as u32);
    let falloff: u64 = if t.falloff > FALLOFF_ONE {
        FALLOFF_ONE as u64
    } else {
        t.falloff as u64
    };
    let opacity: u64 = if options.opacity > OPACITY_ONE {
        OPACITY_ONE as u64
    } else {
        options.opacity as u64
    };
    proof {
        assert(falloff * opacity <= 65536 * 1000) by (nonlinear_arith)
            requires
                falloff <= 65536,
                opacity <= 1000,
        ;
    }
    let k: u64 = falloff * opacity;
    if erase {
        let a = buf[i + 3] as u64;
        proof {
            lemma_blend_bounds(a as int, 0, k as int);
        }
        let v = ((a * (STRENGTH_ONE - k) + STRENGTH_ONE / 2) / STRENGTH_ONE) as u8;
        buf.set(i + 3, v);
    } else {
        let a = buf[i + 3] as u64;
        proof {
            lemma_blend_bounds(0, 255, k as int);
        }
        let nr = lerp(buf[i], options.color_r, k);
        let ng = lerp(buf[i + 1], options.color_g, k);
        let nb = lerp(buf[i + 2], options.color_b, k);
        let cover = (255 * k) / STRENGTH_ONE;
        let na: u8 = if a >= cover {
            a as u8
        } else {
            cover as u8
        };
        buf.set(i, nr);
        buf.set(i + 1, ng);
        buf.set(i + 2, nb);
        buf.set(i + 3, na);
    }
}

/// Composites `touches` onto the buffer one after another, with the brush
/// colour and opacity of `options`; `erase` lowers alpha instead of painting.
pub fn stamp(
    buf: &mut Vec<u8>,
    width: u32,
    height: u32,
    touches: &Vec<Touch>,
    options: &BrushOptions,
    erase: bool,
)
    requires
        old(buf)@.len() == width * height * 4,
        width * height * 4 <= usize::MAX,
    ensures
        final(buf)@.len() == old(buf)@.len(),
        final(buf)@ == stamped(
            old(buf)@,
            width as int,
            height as int,
            touches@,
            *options,
            erase,
            touches@.len() as int,
        ),
{
    let ghost s0 = buf@;
    let mut n: usize = 0;
    while n < touches.len()
        invariant
            n <= touches@.len(),
            width * height * 4 <= usize::MAX,
            buf@ == stamped(s0, width as int, height as int, touches@, *options, erase, n as int),
            buf@.len() == width * height * 4,
        decreases touches@.len() - n,
    {
        touch(buf, width, height, touches[n], options, erase);
        n = n + 1;
    }
}

} // verus!
