//! Properties that relate several operations of the canvas, proved over the
//! contracts of those operations.

use vstd::prelude::*;
use crate::pixels::{chan, color_xy, in_bounds};
use crate::filters::luma;
use crate::fill::{changed, filled_from};
use crate::engine::{
    filter_applied,
    push_bounded,
    recorded,
    redone,
    undone,
    well_formed,
    CanvasView,
    FilterType,
    HISTORY_LIMIT,
};

verus! {

/// The undo stack after snapshots of each of `states` in turn, starting
/// from `undo`.
pub open spec fn after_snapshots(undo: Seq<Seq<u8>>, states: Seq<Seq<u8>>) -> Seq<Seq<u8>>
    decreases states.len(),
{
    if states.len() == 0 {
        undo
    } else {
        push_bounded(after_snapshots(undo, states.drop_last()), states.last())
    }
}

/// Undo right after a mutation brings back the buffer from before it, and
/// redo right after that undo brings back the buffer the mutation made.
pub proof fn lemma_undo_redo_round_trip(
    pre: CanvasView,
    mid: CanvasView,
    back: CanvasView,
    undo_done: bool,
    fwd: CanvasView,
    redo_done: bool,
)
    requires
        well_formed(pre),
        recorded(pre, mid),
        undone(mid, back, undo_done),
        redone(back, fwd, redo_done),
    ensures
        undo_done,
        back.pixels == pre.pixels,
        redo_done,
        fwd.pixels == mid.pixels,
{
    assert(mid.undo.len() > 0);
    assert(mid.undo.last() == pre.pixels);
    assert(back.redo.len() > 0);
    assert(back.redo.last() == mid.pixels);
}

/// Starting from an empty history, the undo stack holds the states from
/// before the last `HISTORY_LIMIT` mutations, oldest first; older ones are
/// gone.
pub proof fn lemma_history_keeps_latest(states: Seq<Seq<u8>>)
    ensures
        after_snapshots(Seq::empty(), states) == if states.len() > HISTORY_LIMIT {
            states.subrange(states.len() - HISTORY_LIMIT, states.len() as int)
        } else {
            states
        },
    decreases states.len(),
{
    if states.len() > 0 {
        lemma_history_keeps_latest(states.drop_last());
        let n = states.len() as int;
        let prev = after_snapshots(Seq::empty(), states.drop_last());
        if n - 1 > HISTORY_LIMIT {
            assert(prev.push(states.last()).subrange(1, prev.len() as int + 1) =~= states.subrange(
                n - HISTORY_LIMIT,
                n,
            ));
        } else if n - 1 == HISTORY_LIMIT {
            assert(prev =~= states.drop_last());
            assert(prev.push(states.last()).subrange(1, prev.len() as int + 1) =~= states.subrange(
                n - HISTORY_LIMIT,
                n,
            ));
        } else {
            assert(prev.push(states.last()) =~= states);
        }
    }
}

/// A run of undo calls succeeds exactly as long as the undo stack of the
/// first state has entries left, each success installing the next entry
/// from the top; once the stack is used up every further call fails.
pub proof fn lemma_undo_run(views: Seq<CanvasView>, dones: Seq<bool>)
    requires
        views.len() == dones.len() + 1,
        forall|i: int| 0 <= i < dones.len() ==> undone(views[i], views[i + 1], #[trigger] dones[i]),
    ensures
        forall|i: int| 0 <= i < dones.len() ==> #[trigger] dones[i] == (i < views[0].undo.len()),
        forall|i: int|
            0 < i <= dones.len() && i <= views[0].undo.len() ==> (#[trigger] views[i]).pixels
                == views[0].undo[views[0].undo.len() - i],
        forall|i: int|
            0 <= i <= dones.len() && i >= views[0].undo.len() ==> (#[trigger] views[i]).undo.len()
                == 0,
{
    assert forall|i: int| 0 <= i < dones.len() implies #[trigger] dones[i] == (i
        < views[0].undo.len()) by {
        lemma_undo_prefix(views, dones, i + 1);
    }
    assert forall|i: int|
        0 < i <= dones.len() && i <= views[0].undo.len() implies (#[trigger] views[i]).pixels
        == views[0].undo[views[0].undo.len() - i] by {
        lemma_undo_prefix(views, dones, i);
    }
    assert forall|i: int|
        0 <= i <= dones.len() && i >= views[0].undo.len() implies (#[trigger] views[i]).undo.len()
        == 0 by {
        lemma_undo_prefix(views, dones, i);
    }
}

/// After `i` undo calls the undo stack is the bottom of the first one.
proof fn lemma_undo_prefix(views: Seq<CanvasView>, dones: Seq<bool>, i: int)
    requires
        views.len() == dones.len() + 1,
        forall|j: int| 0 <= j < dones.len() ==> undone(views[j], views[j + 1], #[trigger] dones[j]),
        0 <= i <= dones.len(),
    ensures
        i <= views[0].undo.len() ==> views[i].undo == views[0].undo.subrange(0, views[0].undo.len() - i),
        i > 0 && i <= views[0].undo.len() ==> views[i].pixels == views[0].undo[views[0].undo.len() - i]
            && dones[i - 1],
        i >= views[0].undo.len() ==> views[i].undo.len() == 0,
        i > views[0].undo.len() ==> !dones[i - 1],
    decreases i,
{
    if i == 0 {
        assert(views[0].undo.subrange(0, views[0].undo.len() as int) =~= views[0].undo);
    } else {
        lemma_undo_prefix(views, dones, i - 1);
        assert(undone(views[i - 1], views[i], dones[i - 1]));
        if i <= views[0].undo.len() {
            assert(views[i].undo =~= views[0].undo.subrange(0, views[0].undo.len() - i));
        }
    }
}

/// Grey stays grey: a second grayscale pass changes nothing.
pub proof fn lemma_grayscale_idempotent(
    s: Seq<u8>,
    once: Seq<u8>,
    twice: Seq<u8>,
    width: int,
    height: int,
    i1: int,
    i2: int,
)
    requires
        s.len() % 4 == 0,
        filter_applied(s, once, width, height, FilterType::Grayscale, i1),
        filter_applied(once, twice, width, height, FilterType::Grayscale, i2),
    ensures
        twice == once,
{
    assert forall|k: int| 0 <= k < once.len() implies twice[k] == once[k] by {
        let p = k / 4;
        let c = k % 4;
        assert(k == 4 * p + c);
        assert(chan(twice, p, c) == twice[k]);
        assert(chan(once, p, 0) == chan(once, p, 1));
        assert(chan(once, p, 1) == chan(once, p, 2));
        let l = chan(once, p, 0) as int;
        assert(luma(l, l, l) == l);
    }
    assert(twice =~= once);
}

/// Inverting twice gives back the original buffer.
pub proof fn lemma_invert_involution(
    s: Seq<u8>,
    once: Seq<u8>,
    twice: Seq<u8>,
    width: int,
    height: int,
    i1: int,
    i2: int,
)
    requires
        s.len() % 4 == 0,
        filter_applied(s, once, width, height, FilterType::Invert, i1),
        filter_applied(once, twice, width, height, FilterType::Invert, i2),
    ensures
        twice == s,
{
    assert forall|k: int| 0 <= k < s.len() implies twice[k] == s[k] by {
        let p = k / 4;
        let c = k % 4;
        assert(k == 4 * p + c);
        assert(chan(twice, p, c) == twice[k]);
        assert(chan(once, p, c) == once[k]);
    }
    assert(twice =~= s);
}

/// Brightness at intensity zero leaves the buffer as it was.
pub proof fn lemma_brightness_zero(s: Seq<u8>, after: Seq<u8>, width: int, height: int)
    requires
        s.len() % 4 == 0,
        filter_applied(s, after, width, height, FilterType::Brightness, 0),
    ensures
        after == s,
{
    assert forall|k: int| 0 <= k < s.len() implies after[k] == s[k] by {
        let p = k / 4;
        let c = k % 4;
        assert(k == 4 * p + c);
        assert(chan(after, p, c) == after[k]);
    }
    assert(after =~= s);
}

/// On a buffer of one colour, filling from any pixel with another colour
/// recolours every pixel.
pub proof fn lemma_fill_uniform(
    before: Seq<u8>,
    after: Seq<u8>,
    width: int,
    height: int,
    x: int,
    y: int,
    replacement: (u8, u8, u8, u8),
)
    requires
        in_bounds(width, height, x, y),
        forall|a: int, b: int|
            in_bounds(width, height, a, b) ==> #[trigger] color_xy(before, width, a, b) == color_xy(
                before,
                width,
                x,
                y,
            ),
        color_xy(before, width, x, y) != replacement,
        filled_from(before, after, width, height, x, y, replacement),
    ensures
        forall|a: int, b: int|
            in_bounds(width, height, a, b) ==> #[trigger] color_xy(after, width, a, b) == replacement,
{
    assert forall|a: int, b: int| in_bounds(width, height, a, b) implies #[trigger] color_xy(
        after,
        width,
        a,
        b,
    ) == replacement by {
        lemma_fill_column(before, after, width, height, x, y, replacement, a, b);
        assert(color_xy(before, width, a, b) == color_xy(before, width, x, y));
    }
}

/// Every pixel of the seed's row changes in a uniform fill.
proof fn lemma_fill_row(
    before: Seq<u8>,
    after: Seq<u8>,
    width: int,
    height: int,
    x: int,
    y: int,
    replacement: (u8, u8, u8, u8),
    a: int,
)
    requires
        in_bounds(width, height, x, y),
        forall|a: int, b: int|
            in_bounds(width, height, a, b) ==> #[trigger] color_xy(before, width, a, b) == color_xy(
                before,
                width,
                x,
                y,
            ),
        color_xy(before, width, x, y) != replacement,
        filled_from(before, after, width, height, x, y, replacement),
        0 <= a < width,
    ensures
        changed(before, after, width, a, y),
    decreases if a < x {
        x - a
    } else {
        a - x
    },
{
    if a < x {
        lemma_fill_row(before, after, width, height, x, y, replacement, a + 1);
        assert(color_xy(before, width, a, y) == color_xy(before, width, x, y));
    } else if a > x {
        lemma_fill_row(before, after, width, height, x, y, replacement, a - 1);
        assert(color_xy(before, width, a, y) == color_xy(before, width, x, y));
    }
}

/// Every pixel changes in a uniform fill.
proof fn lemma_fill_column(
    before: Seq<u8>,
    after: Seq<u8>,
    width: int,
    height: int,
    x: int,
    y: int,
    replacement: (u8, u8, u8, u8),
    a: int,
    b: int,
)
    requires
        in_bounds(width, height, x, y),
        forall|a: int, b: int|
            in_bounds(width, height, a, b) ==> #[trigger] color_xy(before, width, a, b) == color_xy(
                before,
                width,
                x,
                y,
            ),
        color_xy(before, width, x, y) != replacement,
        filled_from(before, after, width, height, x, y, replacement),
        in_bounds(width, height, a, b),
    ensures
        changed(before, after, width, a, b),
    decreases if b < y {
        y - b
    } else {
        b - y
    },
{
    if b < y {
        lemma_fill_column(before, after, width, height, x, y, replacement, a, b + 1);
        assert(color_xy(before, width, a, b) == color_xy(before, width, x, y));
    } else if b > y {
        lemma_fill_column(before, after, width, height, x, y, replacement, a, b - 1);
        assert(color_xy(before, width, a, b) == color_xy(before, width, x, y));
    } else {
        lemma_fill_row(before, after, width, height, x, y, replacement, a);
    }
}

} // verus!
