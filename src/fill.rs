//! Four-connected flood fill by breadth-first traversal.

use vstd::prelude::*;
use std::collections::VecDeque;
use crate::pixels::{
    chan,
    color,
    color_xy,
    in_bounds,
    pixel_of,
    Rgba,
    lemma_pixel_in_buffer,
    lemma_pixel_of_injective,
    index,
};

verus! {

/// The pixel at `(x, y)` differs between `before` and `after`.
pub open spec fn changed(before: Seq<u8>, after: Seq<u8>, width: int, x: int, y: int) -> bool {
    color_xy(after, width, x, y) != color_xy(before, width, x, y)
}

/// Every pixel either kept its colour or went from `target` to `replacement`.
pub open spec fn only_target_replaced(
    before: Seq<u8>,
    after: Seq<u8>,
    width: int,
    height: int,
    target: Rgba,
    replacement: Rgba,
) -> bool {
    forall|x: int, y: int|
        in_bounds(width, height, x, y) ==> #[trigger] color_xy(after, width, x, y) == color_xy(
            before,
            width,
            x,
            y,
        ) || (color_xy(before, width, x, y) == target && color_xy(after, width, x, y)
            == replacement)
}

/// No changed pixel has a four-neighbour that still holds its original
/// `target` colour: the change is closed under adjacency.
pub open spec fn closed_region(
    before: Seq<u8>,
    after: Seq<u8>,
    width: int,
    height: int,
    target: Rgba,
) -> bool {
    forall|x: int, y: int|
        in_bounds(width, height, x, y) && #[trigger] changed(before, after, width, x, y) ==> {
            &&& (x > 0 && color_xy(before, width, x - 1, y) == target) ==> changed(
                before,
                after,
                width,
                x - 1,
                y,
            )
            &&& (x + 1 < width && color_xy(before, width, x + 1, y) == target) ==> changed(
                before,
                after,
                width,
                x + 1,
                y,
            )
            &&& (y > 0 && color_xy(before, width, x, y - 1) == target) ==> changed(
                before,
                after,
                width,
                x,
                y - 1,
            )
            &&& (y + 1 < height && color_xy(before, width, x, y + 1) == target) ==> changed(
                before,
                after,
                width,
                x,
                y + 1,
            )
        }
}

/// `(a, b)` waits in the queue.
pub open spec fn queued(q: Seq<(u32, u32)>, a: int, b: int) -> bool {
    exists|i: int| 0 <= i < q.len() && (#[trigger] q[i]).0 == a && q[i].1 == b
}

/// The neighbour `(a, b)` of a changed pixel is either still queued or no
/// longer holds `target`.
pub open spec fn settled(q: Seq<(u32, u32)>, s: Seq<u8>, width: int, target: Rgba, a: int, b: int) -> bool {
    queued(q, a, b) || color_xy(s, width, a, b) != target
}

/// Number of pixels among the first `n` whose colour is `c`.
pub open spec fn count_color(s: Seq<u8>, c: Rgba, n: int) -> nat
    decreases n,
{
    if n <= 0 {
        0
    } else {
        count_color(s, c, n - 1) + if color(s, n - 1) == c {
            1nat
        } else {
            0nat
        }
    }
}

/// Recolouring one pixel away from `c` lowers the count of `c` by one.
proof fn lemma_count_one_less(s: Seq<u8>, t: Seq<u8>, c: Rgba, p: int, n: int)
    requires
        0 <= p < n,
        color(s, p) == c,
        color(t, p) != c,
        forall|q: int| 0 <= q < n && q != p ==> #[trigger] color(t, q) == color(s, q),
    ensures
        count_color(t, c, n) + 1 == count_color(s, c, n),
    decreases n,
{
    if n - 1 > p {
        lemma_count_one_less(s, t, c, p, n - 1);
        assert(color(t, n - 1) == color(s, n - 1));
    } else {
        lemma_count_same(s, t, c, n - 1);
    }
}

/// Buffers that agree on the first `n` colours count them alike.
proof fn lemma_count_same(s: Seq<u8>, t: Seq<u8>, c: Rgba, n: int)
    requires
        forall|q: int| 0 <= q < n ==> #[trigger] color(t, q) == color(s, q),
    ensures
        count_color(t, c, n) == count_color(s, c, n),
    decreases n,
{
    if n > 0 {
        lemma_count_same(s, t, c, n - 1);
    }
}


/// Each four-neighbour of `(a, b)` that lies on the grid is settled.
pub open spec fn neighbours_settled(
    q: Seq<(u32, u32)>,
    s: Seq<u8>,
    width: int,
    height: int,
    target: Rgba,
    a: int,
    b: int,
) -> bool {
    &&& a > 0 ==> settled(q, s, width, target, a - 1, b)
    &&& a + 1 < width ==> settled(q, s, width, target, a + 1, b)
    &&& b > 0 ==> settled(q, s, width, target, a, b - 1)
    &&& b + 1 < height ==> settled(q, s, width, target, a, b + 1)
}

/// `(a, b)` is a four-neighbour of `(x, y)`.
pub open spec fn adjacent(x: int, y: int, a: int, b: int) -> bool {
    ((a == x - 1 || a == x + 1) && b == y) || (a == x && (b == y - 1 || b == y + 1))
}

/// `(a, b)` is a four-neighbour of some entry of `order`.
pub open spec fn near(order: Seq<(int, int)>, a: int, b: int) -> bool {
    exists|j: int| 0 <= j < order.len() && adjacent((#[trigger] order[j]).0, order[j].1, a, b)
}

/// Entry `k` of `order` is a four-neighbour of an earlier entry.
pub open spec fn linked(order: Seq<(int, int)>, k: int) -> bool {
    near(order.subrange(0, k), order[k].0, order[k].1)
}

/// `order` lists pixels of the seed's colour in `before`, starting at the
/// seed `(x, y)`, each one after the first next to an earlier one, and it
/// holds every pixel that differs between `before` and `after`: every
/// changed pixel is joined to the seed by a path of pixels of its colour.
pub open spec fn fill_order(
    order: Seq<(int, int)>,
    before: Seq<u8>,
    after: Seq<u8>,
    width: int,
    height: int,
    x: int,
    y: int,
) -> bool {
    &&& order.len() > 0
    &&& order[0] == (x, y)
    &&& forall|k: int|
        0 <= k < order.len() ==> in_bounds(width, height, (#[trigger] order[k]).0, order[k].1)
            && color_xy(before, width, order[k].0, order[k].1) == color_xy(before, width, x, y)
    &&& forall|k: int| 0 < k < order.len() ==> #[trigger] linked(order, k)
    &&& forall|a: int, b: int|
        in_bounds(width, height, a, b) && #[trigger] changed(before, after, width, a, b)
            ==> order.contains((a, b))
}

/// What filling from the seed `(x, y)` with `replacement` makes of `before`.
/// When the seed already has the replacement colour nothing changes;
/// otherwise only pixels of the seed's colour change, each to `replacement`,
/// the seed among them; the change reaches only pixels joined to the seed
/// through pixels of its colour, and stops only at pixels of another colour
/// or at the edge of the grid.
pub open spec fn filled_from(
    before: Seq<u8>,
    after: Seq<u8>,
    width: int,
    height: int,
    x: int,
    y: int,
    replacement: Rgba,
) -> bool {
    let target = color_xy(before, width, x, y);
    &&& after.len() == before.len()
    &&& target == replacement ==> after == before
    &&& target != replacement ==> {
        &&& only_target_replaced(before, after, width, height, target, replacement)
        &&& changed(before, after, width, x, y)
        &&& closed_region(before, after, width, height, target)
        &&& exists|order: Seq<(int, int)>| #[trigger] fill_order(order, before, after, width, height, x, y)
    }
}

/// An entry found in a queue is still found after the queue grows at its end.
proof fn lemma_queued_grow(q: Seq<(u32, u32)>, r: Seq<(u32, u32)>, a: int, b: int)
    requires
        queued(q, a, b),
        q.len() <= r.len(),
        forall|i: int| 0 <= i < q.len() ==> r[i] == q[i],
    ensures
        queued(r, a, b),
{
    let i = choose|i: int| 0 <= i < q.len() && (#[trigger] q[i]).0 == a && q[i].1 == b;
    assert(r[i] == q[i]);
}

/// A pixel next to an entry of `order` stays so as `order` grows.
proof fn lemma_near_grow(order: Seq<(int, int)>, e: (int, int), a: int, b: int)
    requires
        near(order, a, b),
    ensures
        near(order.push(e), a, b),
{
    let j = choose|j: int| 0 <= j < order.len() && adjacent((#[trigger] order[j]).0, order[j].1, a, b);
    assert(order.push(e)[j] == order[j]);
}

/// A neighbour settled before one step of the traversal is settled after it:
/// the step took `(cx, cy)` off the front of the queue, appended to it, and
/// changed at most the colour of `(cx, cy)`, which no longer holds `target`.
proof fn lemma_settled_kept(
    q0: Seq<(u32, u32)>,
    q1: Seq<(u32, u32)>,
    s0: Seq<u8>,
    s1: Seq<u8>,
    width: int,
    target: Rgba,
    cx: int,
    cy: int,
    a: int,
    b: int,
)
    requires
        settled(q0, s0, width, target, a, b),
        q0.len() > 0,
        q0[0].0 == cx,
        q0[0].1 == cy,
        q1.len() + 1 >= q0.len(),
        forall|i: int| 1 <= i < q0.len() ==> q1[i - 1] == q0[i],
        color_xy(s1, width, cx, cy) != target,
        (a != cx || b != cy) ==> color_xy(s1, width, a, b) == color_xy(s0, width, a, b),
    ensures
        settled(q1, s1, width, target, a, b),
{
    if a == cx && b == cy {
    } else if queued(q0, a, b) {
        let i = choose|i: int| 0 <= i < q0.len() && (#[trigger] q0[i]).0 == a && q0[i].1 == b;
        assert(i != 0);
        assert(q1[i - 1] == q0[i]);
    }
}

/// Replaces the four-connected region of pixels sharing the seed's colour
/// with `replacement`, visiting pixels breadth-first from the seed `(x, y)`.
/// A queued pixel is recoloured only if it still holds the seed's original
/// colour when taken from the queue, so a pixel reached twice is changed once.
pub fn flood_fill(buf: &mut Vec<u8>, width: u32, height: u32, x: u32, y: u32, replacement: Rgba)
    requires
        old(buf)@.len() == width * height * 4,
        in_bounds(width as int, height as int, x as int, y as int),
    ensures
        filled_from(old(buf)@, final(buf)@, width as int, height as int, x as int, y as int, replacement),
{
    let ghost w = width as int;
    let ghost h = height as int;
    let ghost s0 = buf@;
    proof {
        lemma_pixel_in_buffer(w, h, x as int, y as int);
    }
    let total = buf.len();
    let seed = index(width, height, x, y);
    let target: Rgba = (buf[seed], buf[seed + 1], buf[seed + 2], buf[seed + 3]);
    if target.0 == replacement.0 && target.1 == replacement.1 && target.2 == replacement.2
        && target.3 == replacement.3 {
        return;
    }
    let mut queue: VecDeque<(u32, u32)> = VecDeque::new();
    queue.push_back((x, y));
    let ghost mut order: Seq<(int, int)> = Seq::empty();
    while queue.len() > 0
        invariant
            buf@.len() == s0.len(),
            s0.len() == w * h * 4,
            s0.len() == total,
            w == width,
            h == height,
            in_bounds(w, h, x as int, y as int),
            target == color_xy(s0, w, x as int, y as int),
            target != replacement,
            only_target_replaced(s0, buf@, w, h, target, replacement),
            forall|i: int|
                0 <= i < queue@.len() ==> in_bounds(w, h, (#[trigger] queue@[i]).0 as int, queue@[i].1 as int),
            changed(s0, buf@, w, x as int, y as int) || (buf@ == s0 && queue@ == seq![(x, y)]),
            order.len() == 0 ==> buf@ == s0 && queue@ == seq![(x, y)],
            order.len() > 0 ==> order[0] == (x as int, y as int),
            forall|k: int|
                0 <= k < order.len() ==> in_bounds(w, h, (#[trigger] order[k]).0, order[k].1)
                    && color_xy(s0, w, order[k].0, order[k].1) == target,
            forall|k: int| 0 < k < order.len() ==> #[trigger] linked(order, k),
            forall|a: int, b: int|
                in_bounds(w, h, a, b) && #[trigger] changed(s0, buf@, w, a, b) ==> order.contains((a, b)),
            order.len() > 0 ==> forall|i: int|
                0 <= i < queue@.len() ==> near(order, (#[trigger] queue@[i]).0 as int, queue@[i].1 as int),
            forall|a: int, b: int|
                in_bounds(w, h, a, b) && #[trigger] changed(s0, buf@, w, a, b) ==> neighbours_settled(
                    queue@,
                    buf@,
                    w,
                    h,
                    target,
                    a,
                    b,
                ),
        decreases count_color(buf@, target, w * h) * 4 + queue@.len(),
    {
        let ghost q0 = queue@;
        let ghost b0 = buf@;
        let item = queue.pop_front();
        if let Some((cx, cy)) = item {
            assert(in_bounds(w, h, q0[0].0 as int, q0[0].1 as int));
            proof {
                lemma_pixel_in_buffer(w, h, cx as int, cy as int);
            }
            let i = index(width, height, cx, cy);
            let ghost q1 = queue@;
            if buf[i] == target.0 && buf[i + 1] == target.1 && buf[i + 2] == target.2 && buf[i + 3]
                == target.3 {
                assert(color_xy(b0, w, cx as int, cy as int) == target);
                buf.set(i, replacement.0);
                buf.set(i + 1, replacement.1);
                buf.set(i + 2, replacement.2);
                buf.set(i + 3, replacement.3);
                let ghost b1 = buf@;
                assert(color_xy(b1, w, cx as int, cy as int) == replacement);
                assert forall|a: int, b: int|
                    in_bounds(w, h, a, b) && (a != cx || b != cy) implies #[trigger] color_xy(
                    b1,
                    w,
                    a,
                    b,
                ) == color_xy(b0, w, a, b) by {
                    lemma_pixel_of_injective(w, a, b, cx as int, cy as int);
                    lemma_pixel_in_buffer(w, h, a, b);
                }
                proof {
                    let pc = pixel_of(w, cx as int, cy as int);
                    assert forall|p: int| 0 <= p < w * h && p != pc implies #[trigger] color(b1, p)
                        == color(b0, p) by {}
                    lemma_count_one_less(b0, b1, target, pc, w * h);
                }
                let ghost o0 = order;
                let ghost e: (int, int) = (cx as int, cy as int);
                proof {
                    if o0.len() > 0 {
                        assert(near(o0, q0[0].0 as int, q0[0].1 as int));
                    }
                    order = o0.push(e);
                    assert(order.subrange(0, o0.len() as int) =~= o0);
                    assert forall|k: int| 0 < k < order.len() implies #[trigger] linked(order, k) by {
                        if k < o0.len() {
                            assert(linked(o0, k));
                            assert(order.subrange(0, k) =~= o0.subrange(0, k));
                        }
                    }
                    assert(order[o0.len() as int] == e);
                    assert forall|a: int, b: int|
                        in_bounds(w, h, a, b) && #[trigger] changed(s0, b1, w, a, b) implies order.contains((a, b)) by {
                        if a != cx || b != cy {
                            assert(changed(s0, b0, w, a, b));
                            assert(o0.contains((a, b)));
                            let k = choose|k: int| 0 <= k < o0.len() && o0[k] == (a, b);
                            assert(order[k] == (a, b));
                        }
                    }
                    assert forall|i: int| 1 <= i < q0.len() implies near(order, (#[trigger] q0[i]).0 as int, q0[i].1 as int) by {
                        if o0.len() > 0 {
                            assert(near(o0, q0[i].0 as int, q0[i].1 as int));
                            lemma_near_grow(o0, e, q0[i].0 as int, q0[i].1 as int);
                        }
                    }
                    if cx > 0 {
                        assert(adjacent(order[o0.len() as int].0, order[o0.len() as int].1, cx - 1, cy as int));
                    }
                    if cx + 1 < width {
                        assert(adjacent(order[o0.len() as int].0, order[o0.len() as int].1, cx + 1, cy as int));
                    }
                    if cy > 0 {
                        assert(adjacent(order[o0.len() as int].0, order[o0.len() as int].1, cx as int, cy - 1));
                    }
                    if cy + 1 < height {
                        assert(adjacent(order[o0.len() as int].0, order[o0.len() as int].1, cx as int, cy + 1));
                    }
                }
                if cx > 0 {
                    queue.push_back((cx - 1, cy));
                }
                let ghost qa = queue@;
                if cx + 1 < width {
                    queue.push_back((cx + 1, cy));
                }
                let ghost qb = queue@;
                if cy > 0 {
                    queue.push_back((cx, cy - 1));
                }
                let ghost qc = queue@;
                if cy + 1 < height {
                    queue.push_back((cx, cy + 1));
                }
                proof {
                    let qf = queue@;
                    if cx > 0 {
                        assert(qa[qa.len() - 1].0 == cx - 1 && qa[qa.len() - 1].1 == cy);
                        lemma_queued_grow(qa, qf, cx - 1, cy as int);
                    }
                    if cx + 1 < width {
                        assert(qb[qb.len() - 1].0 == cx + 1 && qb[qb.len() - 1].1 == cy);
                        lemma_queued_grow(qb, qf, cx + 1, cy as int);
                    }
                    if cy > 0 {
                        assert(qc[qc.len() - 1].0 == cx && qc[qc.len() - 1].1 == cy - 1);
                        lemma_queued_grow(qc, qf, cx as int, cy - 1);
                    }
                    if cy + 1 < height {
                        assert(qf[qf.len() - 1].0 == cx && qf[qf.len() - 1].1 == cy + 1);
                    }
                    assert forall|i: int| 0 <= i < qf.len() implies near(order, (#[trigger] qf[i]).0 as int, qf[i].1 as int) by {
                        if i < q1.len() {
                            assert(qf[i] == q0[i + 1]);
                        }
                    }
                    assert forall|a: int, b: int|
                        in_bounds(w, h, a, b) && #[trigger] changed(s0, b1, w, a, b) implies neighbours_settled(
                        qf,
                        b1,
                        w,
                        h,
                        target,
                        a,
                        b,
                    ) by {
                        if a != cx || b != cy {
                            assert(changed(s0, b0, w, a, b));
                            if a > 0 {
                                lemma_settled_kept(q0, qf, b0, b1, w, target, cx as int, cy as int, a - 1, b);
                            }
                            if a + 1 < w {
                                lemma_settled_kept(q0, qf, b0, b1, w, target, cx as int, cy as int, a + 1, b);
                            }
                            if b > 0 {
                                lemma_settled_kept(q0, qf, b0, b1, w, target, cx as int, cy as int, a, b - 1);
                            }
                            if b + 1 < h {
                                lemma_settled_kept(q0, qf, b0, b1, w, target, cx as int, cy as int, a, b + 1);
                            }
                        }
                    }
                }
            } else {
                assert(color_xy(b0, w, cx as int, cy as int) != target);
                assert(order.len() > 0);
                assert forall|i: int| 0 <= i < q1.len() implies near(order, (#[trigger] q1[i]).0 as int, q1[i].1 as int) by {
                    assert(q1[i] == q0[i + 1]);
                }
                assert forall|a: int, b: int|
                    in_bounds(w, h, a, b) && #[trigger] changed(s0, b0, w, a, b) implies neighbours_settled(
                    q1,
                    b0,
                    w,
                    h,
                    target,
                    a,
                    b,
                ) by {
                    if a > 0 {
                        lemma_settled_kept(q0, q1, b0, b0, w, target, cx as int, cy as int, a - 1, b);
                    }
                    if a + 1 < w {
                        lemma_settled_kept(q0, q1, b0, b0, w, target, cx as int, cy as int, a + 1, b);
                    }
                    if b > 0 {
                        lemma_settled_kept(q0, q1, b0, b0, w, target, cx as int, cy as int, a, b - 1);
                    }
                    if b + 1 < h {
                        lemma_settled_kept(q0, q1, b0, b0, w, target, cx as int, cy as int, a, b + 1);
                    }
                }
            }
        }
    }
    proof {
        assert(order.len() > 0);
        assert(fill_order(order, s0, buf@, w, h, x as int, y as int));
        assert forall|a: int, b: int|
            in_bounds(w, h, a, b) && #[trigger] changed(s0, buf@, w, a, b) implies {
            &&& (a > 0 && color_xy(s0, w, a - 1, b) == target) ==> changed(s0, buf@, w, a - 1, b)
            &&& (a + 1 < w && color_xy(s0, w, a + 1, b) == target) ==> changed(s0, buf@, w, a + 1, b)
            &&& (b > 0 && color_xy(s0, w, a, b - 1) == target) ==> changed(s0, buf@, w, a, b - 1)
            &&& (b + 1 < h && color_xy(s0, w, a, b + 1) == target) ==> changed(s0, buf@, w, a, b + 1)
        } by {
            assert(neighbours_settled(queue@, buf@, w, h, target, a, b));
            if a > 0 {
                assert(color_xy(buf@, w, a - 1, b) == color_xy(s0, w, a - 1, b) || color_xy(s0, w, a - 1, b) == target);
            }
            if a + 1 < w {
                assert(color_xy(buf@, w, a + 1, b) == color_xy(s0, w, a + 1, b) || color_xy(s0, w, a + 1, b) == target);
            }
            if b > 0 {
                assert(color_xy(buf@, w, a, b - 1) == color_xy(s0, w, a, b - 1) || color_xy(s0, w, a, b - 1) == target);
            }
            if b + 1 < h {
                assert(color_xy(buf@, w, a, b + 1) == color_xy(s0, w, a, b + 1) || color_xy(s0, w, a, b + 1) == target);
            }
        }
    }
}

} // verus!
