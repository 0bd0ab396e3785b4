//! The canvas: one RGBA buffer, its dimensions, and a bounded undo/redo
//! history of whole-buffer snapshots.

use vstd::prelude::*;
use crate::pixels::{chan, copy_bytes, in_bounds, pixel_of, round_div, Rgba};
use crate::brush::{fill_alpha, stamp, stamped, BrushOptions, Touch, OPACITY_ONE};
use crate::fill::{filled_from, flood_fill};
use crate::filters::{
    blur,
    blurred,
    brightened,
    brightness,
    grayed,
    grayscale,
    invert,
    inverted,
    sharpen,
    sharpened,
};

verus! {

/// Most snapshots kept on the undo stack; the oldest is dropped beyond it.
pub const HISTORY_LIMIT: usize = 32;

/// Why a buffer was not accepted.
#[derive(Debug, Clone, Copy, PartialEq, Eq, Structural)]
pub enum CanvasError {
    /// The byte count is not `width * height * 4`.
    InvalidDimensions,
}

/// The state of a canvas as plain mathematical values.
pub struct CanvasView {
    pub width: nat,
    pub height: nat,
    pub pixels: Seq<u8>,
    pub undo: Seq<Seq<u8>>,
    pub redo: Seq<Seq<u8>>,
}

/// Byte length of a `width` by `height` RGBA buffer.
pub open spec fn buffer_len(width: nat, height: nat) -> nat {
    width * height * 4
}

/// What every reachable canvas satisfies: the buffer and every snapshot
/// hold exactly `width * height * 4` bytes, and the two stacks together hold
/// at most `HISTORY_LIMIT` snapshots.
pub open spec fn well_formed(v: CanvasView) -> bool {
    &&& v.pixels.len() == buffer_len(v.width, v.height)
    &&& buffer_len(v.width, v.height) <= usize::MAX
    &&& v.width <= u32::MAX
    &&& v.height <= u32::MAX
    &&& v.undo.len() + v.redo.len() <= HISTORY_LIMIT
    &&& forall|i: int| 0 <= i < v.undo.len() ==> #[trigger] v.undo[i].len() == v.pixels.len()
    &&& forall|i: int| 0 <= i < v.redo.len() ==> #[trigger] v.redo[i].len() == v.pixels.len()
}

/// The undo stack after `state` is pushed: the oldest entry is evicted once
/// more than `HISTORY_LIMIT` are held.
pub open spec fn push_bounded(undo: Seq<Seq<u8>>, state: Seq<u8>) -> Seq<Seq<u8>> {
    if undo.len() + 1 > HISTORY_LIMIT {
        undo.push(state).subrange(1, undo.len() as int + 1)
    } else {
        undo.push(state)
    }
}

/// `post` is `pre` after a mutating operation recorded its snapshot: the
/// dimensions are kept, the old buffer is on top of the undo stack, and the
/// redo stack is empty.
pub open spec fn recorded(pre: CanvasView, post: CanvasView) -> bool {
    &&& post.width == pre.width
    &&& post.height == pre.height
    &&& post.pixels.len() == pre.pixels.len()
    &&& post.undo == push_bounded(pre.undo, pre.pixels)
    &&& post.redo == Seq::<Seq<u8>>::empty()
}

/// `post` is `pre` after an undo that reported `done`.
pub open spec fn undone(pre: CanvasView, post: CanvasView, done: bool) -> bool {
    if pre.undo.len() == 0 {
        !done && post == pre
    } else {
        &&& done
        &&& post.width == pre.width
        &&& post.height == pre.height
        &&& post.pixels == pre.undo.last()
        &&& post.undo == pre.undo.drop_last()
        &&& post.redo == pre.redo.push(pre.pixels)
    }
}

/// `post` is `pre` after a redo that reported `done`.
pub open spec fn redone(pre: CanvasView, post: CanvasView, done: bool) -> bool {
    if pre.redo.len() == 0 {
        !done && post == pre
    } else {
        &&& done
        &&& post.width == pre.width
        &&& post.height == pre.height
        &&& post.pixels == pre.redo.last()
        &&& post.redo == pre.redo.drop_last()
        &&& post.undo == pre.undo.push(pre.pixels)
    }
}

/// The whole-buffer filters.
#[derive(Clone, Copy, Debug, PartialEq, Eq, Structural)]
pub enum FilterType {
    Blur,
    Sharpen,
    Invert,
    Grayscale,
    Brightness,
}

/// Box blur radius for an intensity in thousandths: `intensity * 5`,
/// rounded, and at least 1.
pub open spec fn blur_radius(intensity: int) -> int {
    let r = round_div(intensity * 5, 1000);
    if r < 1 {
        1
    } else {
        r
    }
}

/// Brightness shift for an intensity in thousandths: `intensity * 255`, rounded.
pub open spec fn brightness_factor(intensity: int) -> int {
    round_div(intensity * 255, 1000)
}

/// `after` is `before`, of `width` by `height` pixels, with `filter` applied
/// at `intensity` (thousandths; only blur and brightness read it).
pub open spec fn filter_applied(
    before: Seq<u8>,
    after: Seq<u8>,
    width: int,
    height: int,
    filter: FilterType,
    intensity: int,
) -> bool {
    &&& after.len() == before.len()
    &&& match filter {
        FilterType::Blur => forall|x: int, y: int, c: int|
            in_bounds(width, height, x, y) && 0 <= c < 4 ==> #[trigger] chan(after, pixel_of(width, x, y), c)
                == blurred(before, width, height, blur_radius(intensity), x, y, c),
        FilterType::Sharpen => forall|x: int, y: int, c: int|
            in_bounds(width, height, x, y) && 0 <= c < 4 ==> #[trigger] chan(after, pixel_of(width, x, y), c)
                == sharpened(before, width, height, x, y, c),
        FilterType::Invert => forall|p: int, c: int|
            0 <= p < before.len() / 4 && 0 <= c < 4 ==> #[trigger] chan(after, p, c) == inverted(before, p, c),
        FilterType::Grayscale => forall|p: int, c: int|
            0 <= p < before.len() / 4 && 0 <= c < 4 ==> #[trigger] chan(after, p, c) == grayed(before, p, c),
        FilterType::Brightness => forall|p: int, c: int|
            0 <= p < before.len() / 4 && 0 <= c < 4 ==> #[trigger] chan(after, p, c) == brightened(
                before,
                p,
                c,
                brightness_factor(intensity),
            ),
    }
}

/// The colour a flood fill writes: the brush colour with `fill_alpha`.
pub open spec fn fill_color(o: BrushOptions) -> Rgba {
    (o.color_r, o.color_g, o.color_b, fill_alpha(o) as u8)
}

/// The bytes of a slice in a new vector.
fn slice_to_vec(s: &[u8]) -> (r: Vec<u8>)
    ensures
        r@ == s@,
{
    let mut r: Vec<u8> = Vec::new();
    let mut i: usize = 0;
    while i < s.len()
        invariant
            i <= s@.len(),
            r@ == s@.subrange(0, i as int),
        decreases s@.len() - i,
    {
        r.push(s[i]);
        i = i + 1;
        assert(r@ =~= s@.subrange(0, i as int));
    }
    assert(r@ =~= s@);
    r
}

/// An RGBA canvas with undo/redo history.
pub struct CanvasEngine {
    width: u32,
    height: u32,
    buffer: Vec<u8>,
    undo_stack: Vec<Vec<u8>>,
    redo_stack: Vec<Vec<u8>>,
}

impl View for CanvasEngine {
    type V = CanvasView;

    closed spec fn view(&self) -> CanvasView {
        CanvasView {
            width: self.width as nat,
            height: self.height as nat,
            pixels: self.buffer@,
            undo: self.undo_stack@.map_values(|s: Vec<u8>| s@),
            redo: self.redo_stack@.map_values(|s: Vec<u8>| s@),
        }
    }
}

impl CanvasEngine {
    /// A fully transparent black canvas with empty history.
    pub fn new(width: u32, height: u32) -> (r: CanvasEngine)
        requires
            buffer_len(width as nat, height as nat) <= usize::MAX,
        ensures
            well_formed(r@),
            r@.width == width,
            r@.height == height,
            r@.pixels == Seq::new(buffer_len(width as nat, height as nat), |i: int| 0u8),
            r@.undo.len() == 0,
            r@.redo.len() == 0,
    {
        proof {
            lemma_len_bound(width as nat, height as nat);
        }
        let n = (width as usize) * (height as usize) * 4;
        let mut buffer: Vec<u8> = Vec::new();
        let mut i: usize = 0;
        while i < n
            invariant
                i <= n,
                buffer@ == Seq::new(i as nat, |k: int| 0u8),
            decreases n - i,
        {
            buffer.push(0);
            i = i + 1;
            assert(buffer@ =~= Seq::new(i as nat, |k: int| 0u8));
        }
        let r = CanvasEngine {
            width,
            height,
            buffer,
            undo_stack: Vec::new(),
            redo_stack: Vec::new(),
        };
        assert(r@.undo =~= Seq::<Seq<u8>>::empty());
        assert(r@.redo =~= Seq::<Seq<u8>>::empty());
        r
    }

    /// Width in pixels.
    pub fn width(&self) -> (r: u32)
        ensures
            r == self@.width,
    {
        self.width
    }

    /// Height in pixels.
    pub fn height(&self) -> (r: u32)
        ensures
            r == self@.height,
    {
        self.height
    }

    /// An independent copy of the current buffer.
    pub fn export_pixels(&self) -> (r: Vec<u8>)
        ensures
            r@ == self@.pixels,
    {
        copy_bytes(&self.buffer)
    }

    /// Replaces the buffer and its dimensions and empties both history
    /// stacks; fails, changing nothing, unless `pixels` holds exactly
    /// `width * height * 4` bytes.
    pub fn load_pixels(&mut self, pixels: &[u8], width: u32, height: u32) -> (r: Result<
        (),
        CanvasError,
    >)
        requires
            well_formed(old(self)@),
        ensures
            well_formed(final(self)@),
            r is Ok <==> pixels@.len() == buffer_len(width as nat, height as nat),
            r is Ok ==> final(self)@ == (CanvasView {
                width: width as nat,
                height: height as nat,
                pixels: pixels@,
                undo: Seq::empty(),
                redo: Seq::empty(),
            }),
            r is Err ==> r == Err::<(), CanvasError>(CanvasError::InvalidDimensions) && final(self)@
                == old(self)@,
    {
        proof {
            let w = width as int;
            let h = height as int;
            assert(w * h <= 0xffff_ffff * 0xffff_ffff) by (nonlinear_arith)
                requires
                    0 <= w <= 0xffff_ffff,
                    0 <= h <= 0xffff_ffff,
            ;
        }
        let area: u64 = (width as u64) * (height as u64);
        let expected: u128 = (area as u128) * 4;
        if expected != pixels.len() as u128 {
            return Err(CanvasError::InvalidDimensions);
        }
        self.width = width;
        self.height = height;
        self.buffer = slice_to_vec(pixels);
        self.undo_stack.clear();
        self.redo_stack.clear();
        assert(self@.undo =~= Seq::<Seq<u8>>::empty());
        assert(self@.redo =~= Seq::<Seq<u8>>::empty());
        Ok(())
    }

    /// Records a snapshot, then sets every byte to zero.
    pub fn clear(&mut self)
        requires
            well_formed(old(self)@),
        ensures
            well_formed(final(self)@),
            recorded(old(self)@, final(self)@),
            final(self)@.pixels == Seq::new(old(self)@.pixels.len(), |i: int| 0u8),
    {
        self.snapshot();
        let ghost mid = self@;
        let n = self.buffer.len();
        let mut i: usize = 0;
        while i < n
            invariant
                i <= n,
                n == self.buffer@.len(),
                self.width == mid.width,
                self.height == mid.height,
                self.undo_stack@.map_values(|s: Vec<u8>| s@) == mid.undo,
                self.redo_stack@.map_values(|s: Vec<u8>| s@) == mid.redo,
                forall|k: int| 0 <= k < i ==> self.buffer@[k] == 0u8,
            decreases n - i,
        {
            self.buffer.set(i, 0);
            i = i + 1;
        }
        assert(self.buffer@ =~= Seq::new(n as nat, |i: int| 0u8));
    }

    /// Steps back one snapshot: the current buffer moves to the redo stack.
    /// Returns false, changing nothing, when there is nothing to undo.
    pub fn undo(&mut self) -> (r: bool)
        requires
            well_formed(old(self)@),
        ensures
            well_formed(final(self)@),
            undone(old(self)@, final(self)@, r),
    {
        let ghost pre = self@;
        match self.undo_stack.pop() {
            Some(state) => {
                let current = copy_bytes(&self.buffer);
                self.buffer = state;
                self.redo_stack.push(current);
                assert(self@.undo =~= pre.undo.drop_last());
                assert(self@.pixels == pre.undo[pre.undo.len() - 1]);
                assert(self@.redo =~= pre.redo.push(pre.pixels));
                true
            },
            None => false,
        }
    }

    /// Steps forward one snapshot: the current buffer moves to the undo
    /// stack. Returns false, changing nothing, when there is nothing to redo.
    pub fn redo(&mut self) -> (r: bool)
        requires
            well_formed(old(self)@),
        ensures
            well_formed(final(self)@),
            redone(old(self)@, final(self)@, r),
    {
        let ghost pre = self@;
        match self.redo_stack.pop() {
            Some(state) => {
                let current = copy_bytes(&self.buffer);
                self.buffer = state;
                self.undo_stack.push(current);
                assert(self@.redo =~= pre.redo.drop_last());
                assert(self@.pixels == pre.redo[pre.redo.len() - 1]);
                assert(self@.undo =~= pre.undo.push(pre.pixels));
                true
            },
            None => false,
        }
    }

    /// Records a snapshot, then composites `touches` in order with the colour
    /// and opacity of `options`; with `erase`, lowers alpha instead.
    pub fn apply_brush(&mut self, touches: &Vec<Touch>, options: &BrushOptions, erase: bool)
        requires
            well_formed(old(self)@),
        ensures
            well_formed(final(self)@),
            recorded(old(self)@, final(self)@),
            final(self)@.pixels == stamped(
                old(self)@.pixels,
                old(self)@.width as int,
                old(self)@.height as int,
                touches@,
                *options,
                erase,
                touches@.len() as int,
            ),
    {
        self.snapshot();
        stamp(&mut self.buffer, self.width, self.height, touches, options, erase);
    }

    /// Fills the region around `(x, y)` with the brush colour, alpha taken
    /// from its opacity. A seed off the canvas changes nothing and records no
    /// snapshot; otherwise a snapshot is recorded even if the fill then
    /// finds the seed already of the fill colour.
    pub fn flood_fill(&mut self, x: u32, y: u32, options: &BrushOptions)
        requires
            well_formed(old(self)@),
        ensures
            well_formed(final(self)@),
            !in_bounds(old(self)@.width as int, old(self)@.height as int, x as int, y as int)
                ==> final(self)@ == old(self)@,
            in_bounds(old(self)@.width as int, old(self)@.height as int, x as int, y as int) ==> {
                &&& recorded(old(self)@, final(self)@)
                &&& filled_from(
                    old(self)@.pixels,
                    final(self)@.pixels,
                    old(self)@.width as int,
                    old(self)@.height as int,
                    x as int,
                    y as int,
                    fill_color(*options),
                )
            },
    {
        if x >= self.width || y >= self.height {
            return;
        }
        self.snapshot();
        let opacity: u32 = if options.opacity > OPACITY_ONE {
            OPACITY_ONE
        } else {
            options.opacity
        };
        let alpha = ((opacity * 255 + OPACITY_ONE / 2) / OPACITY_ONE) as u8;
        let color: Rgba = (options.color_r, options.color_g, options.color_b, alpha);
        flood_fill(&mut self.buffer, self.width, self.height, x, y, color);
    }

    /// Records a snapshot, then applies `filter` to the whole buffer.
    /// `intensity` is in thousandths: blur uses `intensity * 5` as its
    /// radius and brightness adds `intensity * 255`, both rounded.
    pub fn apply_filter(&mut self, filter: FilterType, intensity: i32)
        requires
            well_formed(old(self)@),
        ensures
            well_formed(final(self)@),
            recorded(old(self)@, final(self)@),
            filter_applied(
                old(self)@.pixels,
                final(self)@.pixels,
                old(self)@.width as int,
                old(self)@.height as int,
                filter,
                intensity as int,
            ),
    {
        self.snapshot();
        match filter {
            FilterType::Blur => {
                let scaled: i64 = intensity as i64 * 5;
                let r: i64 = if scaled >= 0 {
                    (scaled + 500) / 1000
                } else {
                    -((-scaled + 500) / 1000)
                };
                let radius: u32 = if r < 1 {
                    1
                } else {
                    r as u32
                };
                blur(&mut self.buffer, self.width, self.height, radius);
            },
            FilterType::Sharpen => sharpen(&mut self.buffer, self.width, self.height),
            FilterType::Invert => invert(&mut self.buffer),
            FilterType::Grayscale => grayscale(&mut self.buffer),
            FilterType::Brightness => {
                let scaled: i64 = intensity as i64 * 255;
                let f: i64 = if scaled >= 0 {
                    (scaled + 500) / 1000
                } else {
                    -((-scaled + 500) / 1000)
                };
                brightness(&mut self.buffer, f as i32);
            },
        }
    }

    /// Records the current buffer on the undo stack, evicting the oldest
    /// entry past the limit, and empties the redo stack.
    fn snapshot(&mut self)
        requires
            well_formed(old(self)@),
        ensures
            well_formed(final(self)@),
            recorded(old(self)@, final(self)@),
            final(self)@.pixels == old(self)@.pixels,
    {
        let ghost pre = self@;
        let copy = copy_bytes(&self.buffer);
        self.undo_stack.push(copy);
        if self.undo_stack.len() > HISTORY_LIMIT {
            self.undo_stack.remove(0);
        }
        self.redo_stack.clear();
        assert(self@.undo =~= push_bounded(pre.undo, pre.pixels));
        assert(self@.redo =~= Seq::<Seq<u8>>::empty());
    }
}

/// `width * height * 4` bounds its factors.
proof fn lemma_len_bound(width: nat, height: nat)
    ensures
        width * height <= buffer_len(width, height),
{
    assert(width * height * 4 == width * height + width * height * 3) by (nonlinear_arith);
    assert(width * height * 3 >= 0) by (nonlinear_arith);
}

} // verus!
