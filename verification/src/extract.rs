//! Blob extraction: a row-major scan floods each 8-connected component of
//! true cells and records its exact bounding box.

use vstd::prelude::*;
use crate::blob::BlackStone;
use crate::connect::adj8;
use crate::connect::lemma_component_swept;
use crate::connect::lemma_reach_refl;
use crate::connect::lemma_reach_step;
use crate::connect::reachable;
use crate::mask::MaskGrid;
use crate::point::Point;

verus! {

/// The cell a point stands for.
pub open spec fn pt(p: Point) -> (int, int) {
    (p.x as int, p.y as int)
}

/// Whether the work stack holds an entry for the cell `(nx, ny)`.
pub open spec fn queue_has(q: Seq<Point>, nx: int, ny: int) -> bool {
    exists|k: int| 0 <= k < q.len() && (#[trigger] q[k]).x as int == nx && q[k].y as int == ny
}

/// Every entry of the work stack is an in-bounds, originally-true cell of
/// the seed's component.
#[verifier::opaque]
pub open spec fn queue_valid(q: Seq<Point>, m0: MaskGrid, sp: (int, int)) -> bool {
    forall|k: int|
        0 <= k < q.len() ==> (#[trigger] q[k]).x < m0.width && q[k].y < m0.height && m0.cell(
            q[k].x as int,
            q[k].y as int,
        ) && reachable(m0, sp, pt(q[k]))
}

/// An entry for a cell survives any extension of the work stack that keeps
/// the existing entries in place.
proof fn lemma_queue_has_extend(q1: Seq<Point>, q2: Seq<Point>, nx: int, ny: int)
    requires
        queue_has(q1, nx, ny),
        q2.len() >= q1.len(),
        forall|k: int| 0 <= k < q1.len() ==> #[trigger] q2[k] == q1[k],
    ensures
        queue_has(q2, nx, ny),
{
    let k0 = choose|k: int|
        0 <= k < q1.len() && (#[trigger] q1[k]).x as int == nx && q1[k].y as int == ny;
    assert(q2[k0] == q1[k0]);
}

/// Every still-true neighbor of a cleared cell has a pending entry on the
/// work stack. This is what keeps the flood fill from stopping early.
#[verifier::opaque]
pub open spec fn closure_ok(m0: MaskGrid, m: MaskGrid, q: Seq<Point>) -> bool {
    forall|cx: int, cy: int, nx: int, ny: int|
        m0.cell(cx, cy) && !m.cell(cx, cy) && #[trigger] adj8((cx, cy), (nx, ny)) && m.cell(
            nx,
            ny,
        ) ==> queue_has(q, nx, ny)
}

/// While the seed cell is still true, an entry for it is pending.
#[verifier::opaque]
pub open spec fn seed_pending(m: MaskGrid, q: Seq<Point>, seed: Point) -> bool {
    m.cell(seed.x as int, seed.y as int) ==> queue_has(q, seed.x as int, seed.y as int)
}

/// The last entry of a valid work stack is an in-bounds, originally-true
/// cell of the seed's component.
proof fn lemma_queue_valid_last(q: Seq<Point>, m0: MaskGrid, sp: (int, int))
    requires
        queue_valid(q, m0, sp),
        q.len() >= 1,
    ensures
        q.last().x < m0.width,
        q.last().y < m0.height,
        m0.cell(q.last().x as int, q.last().y as int),
        reachable(m0, sp, pt(q.last())),
        queue_valid(q.drop_last(), m0, sp),
{
    reveal(queue_valid);
    assert forall|k: int| 0 <= k < q.drop_last().len() implies (#[trigger] q.drop_last()[k]).x
        < m0.width && q.drop_last()[k].y < m0.height && m0.cell(
        q.drop_last()[k].x as int,
        q.drop_last()[k].y as int,
    ) && reachable(m0, sp, pt(q.drop_last()[k])) by {
        assert(q.drop_last()[k] == q[k]);
    }
}

/// Popping the last entry, and whatever the current step did to the mask,
/// keep an entry for the seed pending as long as the popped cell is no
/// longer true and the mask only lost cells.
proof fn lemma_seed_pending_step(
    m_old: MaskGrid,
    m_new: MaskGrid,
    q0: Seq<Point>,
    q2: Seq<Point>,
    p: Point,
    seed: Point,
)
    requires
        seed_pending(m_old, q0, seed),
        q0.len() >= 1,
        q0.last() == p,
        !m_new.cell(p.x as int, p.y as int),
        forall|x: int, y: int| #[trigger] m_new.cell(x, y) ==> m_old.cell(x, y),
        q2.len() >= q0.len() - 1,
        forall|k: int| 0 <= k < q0.len() - 1 ==> #[trigger] q2[k] == q0[k],
    ensures
        seed_pending(m_new, q2, seed),
{
    reveal(seed_pending);
    if m_new.cell(seed.x as int, seed.y as int) {
        let k0 = choose|k: int|
            0 <= k < q0.len() && (#[trigger] q0[k]).x as int == seed.x as int && q0[k].y as int
                == seed.y as int;
        if k0 < q0.len() - 1 {
            assert(q2[k0] == q0[k0]);
        } else {
            assert(q0[k0] == p);
            assert(!m_new.cell(seed.x as int, seed.y as int));
        }
    }
}

/// Popping an entry that is no longer true keeps the closure: the popped
/// entry can satisfy no still-true obligation.
proof fn lemma_closure_pop(m0: MaskGrid, m: MaskGrid, q0: Seq<Point>, p: Point)
    requires
        q0.len() >= 1,
        q0.last() == p,
        !m.cell(p.x as int, p.y as int),
        closure_ok(m0, m, q0),
    ensures
        closure_ok(m0, m, q0.drop_last()),
{
    reveal(closure_ok);
    let q1 = q0.drop_last();
    assert forall|cx: int, cy: int, nx: int, ny: int|
        m0.cell(cx, cy) && !m.cell(cx, cy) && #[trigger] adj8((cx, cy), (nx, ny)) && m.cell(
            nx,
            ny,
        ) implies queue_has(q1, nx, ny) by {
        let k0 = choose|k: int|
            0 <= k < q0.len() && (#[trigger] q0[k]).x as int == nx && q0[k].y as int == ny;
        if k0 < q0.len() - 1 {
            assert(q1[k0] == q0[k0]);
        } else {
            assert(q0[k0] == p);
            assert(false);
        }
    }
}

/// Popping `p`, clearing its cell and pushing all of its still-true
/// neighbors restores the closure.
proof fn lemma_closure_clear(
    m0: MaskGrid,
    m_before: MaskGrid,
    m: MaskGrid,
    q0: Seq<Point>,
    q2: Seq<Point>,
    p: Point,
)
    requires
        closure_ok(m0, m_before, q0),
        q0.len() >= 1,
        q0.last() == p,
        forall|i: int, j: int|
            #[trigger] m.cell(i, j) == (m_before.cell(i, j) && !(i == p.x as int && j
                == p.y as int)),
        q2.len() >= q0.len() - 1,
        forall|k: int| 0 <= k < q0.len() - 1 ==> #[trigger] q2[k] == q0[k],
        forall|nx: int, ny: int|
            #[trigger] adj8(pt(p), (nx, ny)) && m.cell(nx, ny) ==> queue_has(q2, nx, ny),
    ensures
        closure_ok(m0, m, q2),
{
    reveal(closure_ok);
    assert forall|cx: int, cy: int, nx: int, ny: int|
        m0.cell(cx, cy) && !m.cell(cx, cy) && #[trigger] adj8((cx, cy), (nx, ny)) && m.cell(
            nx,
            ny,
        ) implies queue_has(q2, nx, ny) by {
        if m_before.cell(cx, cy) {
            assert((cx, cy) == pt(p));
            assert(adj8(pt(p), (nx, ny)));
        } else {
            assert(m_before.cell(nx, ny));
            let k0 = choose|k: int|
                0 <= k < q0.len() && (#[trigger] q0[k]).x as int == nx && q0[k].y as int == ny;
            if k0 < q0.len() - 1 {
                assert(q2[k0] == q0[k0]);
            } else {
                assert(q0[k0] == p);
                assert(!m.cell(nx, ny));
            }
        }
    }
}

/// A valid work stack stays valid when an in-bounds cell of the component
/// is pushed.
proof fn lemma_queue_valid_push(q: Seq<Point>, m0: MaskGrid, sp: (int, int), entry: Point)
    requires
        queue_valid(q, m0, sp),
        entry.x < m0.width,
        entry.y < m0.height,
        m0.cell(entry.x as int, entry.y as int),
        reachable(m0, sp, pt(entry)),
    ensures
        queue_valid(q.push(entry), m0, sp),
{
    reveal(queue_valid);
    let q2 = q.push(entry);
    assert forall|k: int| 0 <= k < q2.len() implies (#[trigger] q2[k]).x < m0.width && q2[k].y
        < m0.height && m0.cell(q2[k].x as int, q2[k].y as int) && reachable(m0, sp, pt(q2[k])) by {
        if k < q.len() {
            assert(q2[k] == q[k]);
        } else {
            assert(q2[k] == entry);
        }
    }
}

/// Pushes an entry for `(nx, ny)` if that cell is still true, leaving all
/// existing entries in place.
fn push_if_true(
    queue: &mut Vec<Point>,
    mask: &MaskGrid,
    nx: i64,
    ny: i64,
    Ghost(m0): Ghost<MaskGrid>,
    Ghost(sp): Ghost<(int, int)>,
    Ghost(c): Ghost<(int, int)>,
)
    requires
        mask.wf(),
        mask.width <= u32::MAX,
        mask.height <= u32::MAX,
        forall|x: int, y: int| #[trigger] mask.cell(x, y) ==> m0.cell(x, y),
        reachable(m0, sp, c),
        adj8(c, (nx as int, ny as int)),
    ensures
        final(queue)@.len() >= old(queue)@.len(),
        forall|k: int|
            0 <= k < old(queue)@.len() ==> #[trigger] final(queue)@[k] == old(queue)@[k],
        queue_valid(old(queue)@, m0, sp) ==> queue_valid(final(queue)@, m0, sp),
        mask.cell(nx as int, ny as int) ==> queue_has(final(queue)@, nx as int, ny as int),
{
    if mask.value_or(nx, ny, false) {
        let entry = Point::new(nx as u32, ny as u32);
        let ghost q = queue@;
        queue.push(entry);
        proof {
            lemma_reach_step(m0, sp, c, (nx as int, ny as int));
            assert(queue@ == q.push(entry));
            assert(queue@[queue@.len() - 1] == entry);
            if queue_valid(q, m0, sp) {
                lemma_queue_valid_push(q, m0, sp, entry);
            }
        }
    }
}

/// Pushes every still-true Moore neighbor of `p` onto the work stack,
/// leaving the entries already there untouched.
fn push_true_neighbors(
    queue: &mut Vec<Point>,
    mask: &MaskGrid,
    p: Point,
    Ghost(m0): Ghost<MaskGrid>,
    Ghost(sp): Ghost<(int, int)>,
)
    requires
        mask.wf(),
        mask.width <= u32::MAX,
        mask.height <= u32::MAX,
        forall|x: int, y: int| #[trigger] mask.cell(x, y) ==> m0.cell(x, y),
        reachable(m0, sp, pt(p)),
        queue_valid(old(queue)@, m0, sp),
    ensures
        final(queue)@.len() >= old(queue)@.len(),
        forall|k: int|
            0 <= k < old(queue)@.len() ==> #[trigger] final(queue)@[k] == old(queue)@[k],
        queue_valid(final(queue)@, m0, sp),
        forall|nx: int, ny: int|
            #[trigger] adj8(pt(p), (nx, ny)) && mask.cell(nx, ny) ==> queue_has(
                final(queue)@,
                nx,
                ny,
            ),
{
    let ix: i64 = p.x as i64;
    let iy: i64 = p.y as i64;
    let ghost c = pt(p);
    push_if_true(queue, mask, ix - 1, iy - 1, Ghost(m0), Ghost(sp), Ghost(c));
    let ghost g1 = queue@;
    push_if_true(queue, mask, ix, iy - 1, Ghost(m0), Ghost(sp), Ghost(c));
    let ghost g2 = queue@;
    push_if_true(queue, mask, ix + 1, iy - 1, Ghost(m0), Ghost(sp), Ghost(c));
    let ghost g3 = queue@;
    push_if_true(queue, mask, ix - 1, iy, Ghost(m0), Ghost(sp), Ghost(c));
    let ghost g4 = queue@;
    push_if_true(queue, mask, ix + 1, iy, Ghost(m0), Ghost(sp), Ghost(c));
    let ghost g5 = queue@;
    push_if_true(queue, mask, ix - 1, iy + 1, Ghost(m0), Ghost(sp), Ghost(c));
    let ghost g6 = queue@;
    push_if_true(queue, mask, ix, iy + 1, Ghost(m0), Ghost(sp), Ghost(c));
    let ghost g7 = queue@;
    push_if_true(queue, mask, ix + 1, iy + 1, Ghost(m0), Ghost(sp), Ghost(c));
    proof {
        assert forall|k: int| 0 <= k < g1.len() implies #[trigger] queue@[k] == g1[k] by {}
        assert forall|k: int| 0 <= k < g2.len() implies #[trigger] queue@[k] == g2[k] by {}
        assert forall|k: int| 0 <= k < g3.len() implies #[trigger] queue@[k] == g3[k] by {}
        assert forall|k: int| 0 <= k < g4.len() implies #[trigger] queue@[k] == g4[k] by {}
        assert forall|k: int| 0 <= k < g5.len() implies #[trigger] queue@[k] == g5[k] by {}
        assert forall|k: int| 0 <= k < g6.len() implies #[trigger] queue@[k] == g6[k] by {}
        assert forall|nx: int, ny: int|
            #[trigger] adj8(pt(p), (nx, ny)) && mask.cell(nx, ny) implies queue_has(
            queue@,
            nx,
            ny,
        ) by {
            let dx = nx - p.x as int;
            let dy = ny - p.y as int;
            assert(-1 <= dx <= 1 && -1 <= dy <= 1 && !(dx == 0 && dy == 0));
            if dy == -1 {
                if dx == -1 {
                    lemma_queue_has_extend(g1, queue@, nx, ny);
                } else if dx == 0 {
                    lemma_queue_has_extend(g2, queue@, nx, ny);
                } else {
                    lemma_queue_has_extend(g3, queue@, nx, ny);
                }
            } else if dy == 0 {
                if dx == -1 {
                    lemma_queue_has_extend(g4, queue@, nx, ny);
                } else {
                    lemma_queue_has_extend(g5, queue@, nx, ny);
                }
            } else {
                if dx == -1 {
                    lemma_queue_has_extend(g6, queue@, nx, ny);
                } else if dx == 0 {
                    lemma_queue_has_extend(g7, queue@, nx, ny);
                }
            }
        }
    }
}

/// When the work stack has drained, exactly the seed's component has been
/// cleared from the mask.
proof fn lemma_fill_complete(m0: MaskGrid, m: MaskGrid, sp: (int, int), seed: Point)
    requires
        m0.cell(sp.0, sp.1),
        seed.x as int == sp.0,
        seed.y as int == sp.1,
        forall|x: int, y: int| #[trigger] m.cell(x, y) ==> m0.cell(x, y),
        forall|x: int, y: int|
            m0.cell(x, y) && !(#[trigger] m.cell(x, y)) ==> reachable(m0, sp, (x, y)),
        seed_pending(m, Seq::<Point>::empty(), seed),
        closure_ok(m0, m, Seq::<Point>::empty()),
    ensures
        forall|x: int, y: int|
            #![trigger m.cell(x, y)]
            m.cell(x, y) == (m0.cell(x, y) && !reachable(m0, sp, (x, y))),
        forall|x: int, y: int|
            #![trigger reachable(m0, sp, (x, y))]
            reachable(m0, sp, (x, y)) ==> !m.cell(x, y) && m0.cell(x, y),
{
    reveal(closure_ok);
    assert(!m.cell(sp.0, sp.1)) by {
        reveal(seed_pending);
    }
    assert forall|x: int, y: int|
        #![trigger reachable(m0, sp, (x, y))]
        reachable(m0, sp, (x, y)) implies !m.cell(x, y) && m0.cell(x, y) by {
        assert forall|cx: int, cy: int, nx: int, ny: int|
            m0.cell(cx, cy) && !m.cell(cx, cy) && #[trigger] adj8((cx, cy), (nx, ny)) && m0.cell(
                nx,
                ny,
            ) implies !m.cell(nx, ny) by {
            if m.cell(nx, ny) {
                assert(queue_has(Seq::<Point>::empty(), nx, ny));
                assert(false);
            }
        }
        lemma_component_swept(m0, m, sp, (x, y));
    }
    assert forall|x: int, y: int|
        #![trigger m.cell(x, y)]
        m.cell(x, y) == (m0.cell(x, y) && !reachable(m0, sp, (x, y))) by {
        if m.cell(x, y) {
            if reachable(m0, sp, (x, y)) {
                assert(!m.cell(x, y));
            }
        }
    }
}

/// Clears the whole 8-connected component of the seed cell
/// `old(object).top_left` from the mask — and nothing else — and grows
/// `object` into exactly the bounding box of that component. Works from an
/// explicit stack; never recurses.
pub fn flood_fill(object: &mut BlackStone, mask: &mut MaskGrid)
    requires
        old(mask).wf(),
        old(mask).width <= u32::MAX,
        old(mask).height <= u32::MAX,
        old(object).top_left == old(object).bottom_right,
        old(mask).cell(old(object).top_left.x as int, old(object).top_left.y as int),
    ensures
        final(mask).wf(),
        final(mask).width == old(mask).width,
        final(mask).height == old(mask).height,
        forall|x: int, y: int|
            #![trigger final(mask).cell(x, y)]
            final(mask).cell(x, y) == (old(mask).cell(x, y) && !reachable(
                *old(mask),
                pt(old(object).top_left),
                (x, y),
            )),
        final(object).wf(),
        forall|x: int, y: int|
            reachable(*old(mask), pt(old(object).top_left), (x, y))
                ==> final(object).spec_contains(x, y),
        exists|c: (int, int)|
            reachable(*old(mask), pt(old(object).top_left), c)
                && c.0 == final(object).top_left.x as int,
        exists|c: (int, int)|
            reachable(*old(mask), pt(old(object).top_left), c)
                && c.0 == final(object).bottom_right.x as int,
        exists|c: (int, int)|
            reachable(*old(mask), pt(old(object).top_left), c)
                && c.1 == final(object).top_left.y as int,
        exists|c: (int, int)|
            reachable(*old(mask), pt(old(object).top_left), c)
                && c.1 == final(object).bottom_right.y as int,
{
    let ghost m0 = *old(mask);
    let ghost sp = pt(old(object).top_left);
    let seed: Point = object.top_left;
    let mut queue: Vec<Point> = Vec::new();
    queue.push(seed);
    proof {
        lemma_reach_refl(m0, sp);
        assert(queue@[0] == seed);
        assert(queue_valid(queue@, m0, sp)) by {
            reveal(queue_valid);
        }
        assert(closure_ok(m0, *mask, queue@)) by {
            reveal(closure_ok);
        }
        assert(seed_pending(*mask, queue@, seed)) by {
            reveal(seed_pending);
            assert(queue@[0].x as int == seed.x as int && queue@[0].y as int == seed.y as int);
        }
    }
    let ghost mut wlx: (int, int) = sp;
    let ghost mut wrx: (int, int) = sp;
    let ghost mut wty: (int, int) = sp;
    let ghost mut wby: (int, int) = sp;
    while queue.len() > 0
        invariant
            mask.wf(),
            m0.wf(),
            mask.width == m0.width,
            mask.height == m0.height,
            m0.width <= u32::MAX,
            m0.height <= u32::MAX,
            m0.cell(sp.0, sp.1),
            seed.x as int == sp.0,
            seed.y as int == sp.1,
            forall|x: int, y: int| #[trigger] mask.cell(x, y) ==> m0.cell(x, y),
            forall|x: int, y: int|
                m0.cell(x, y) && !(#[trigger] mask.cell(x, y)) ==> reachable(m0, sp, (x, y)),
            queue_valid(queue@, m0, sp),
            seed_pending(*mask, queue@, seed),
            closure_ok(m0, *mask, queue@),
            object.wf(),
            object.spec_contains(sp.0, sp.1),
            forall|x: int, y: int|
                m0.cell(x, y) && !(#[trigger] mask.cell(x, y)) ==> object.spec_contains(x, y),
            reachable(m0, sp, wlx) && wlx.0 == object.top_left.x as int,
            reachable(m0, sp, wrx) && wrx.0 == object.bottom_right.x as int,
            reachable(m0, sp, wty) && wty.1 == object.top_left.y as int,
            reachable(m0, sp, wby) && wby.1 == object.bottom_right.y as int,
        decreases mask.spec_true_count(), queue@.len(),
    {
        let ghost q0 = queue@;
        proof {
            lemma_queue_valid_last(q0, m0, sp);
        }
        let p: Point = queue.pop().unwrap();
        proof {
            assert(queue@ =~= q0.drop_last());
        }
        let px: usize = p.x as usize;
        let py: usize = p.y as usize;
        if mask.get(px, py) {
            let ghost ob = *object;
            object.push(p);
            proof {
                if (p.x as int) < ob.top_left.x as int {
                    wlx = pt(p);
                }
                if (p.x as int) > ob.bottom_right.x as int {
                    wrx = pt(p);
                }
                if (p.y as int) < ob.top_left.y as int {
                    wty = pt(p);
                }
                if (p.y as int) > ob.bottom_right.y as int {
                    wby = pt(p);
                }
            }
            let ghost m_before = *mask;
            mask.clear(px, py);
            let ghost q1 = queue@;
            push_true_neighbors(&mut queue, mask, p, Ghost(m0), Ghost(sp));
            proof {
                assert forall|k: int| 0 <= k < q0.len() - 1 implies #[trigger] queue@[k]
                    == q0[k] by {
                    assert(queue@[k] == q1[k]);
                    assert(q1[k] == q0.drop_last()[k]);
                }
                lemma_closure_clear(m0, m_before, *mask, q0, queue@, p);
                lemma_seed_pending_step(m_before, *mask, q0, queue@, p, seed);
            }
        } else {
            proof {
                lemma_closure_pop(m0, *mask, q0, p);
                lemma_seed_pending_step(*mask, *mask, q0, queue@, p, seed);
            }
        }
    }
    proof {
        assert(queue@ =~= Seq::<Point>::empty());
        lemma_fill_complete(m0, *mask, sp, seed);
    }
}

/// The row-major rank of a cell: cells are ordered top-left to bottom-right.
pub open spec fn rm_rank(m: MaskGrid, c: (int, int)) -> int {
    c.1 * (m.width as int) + c.0
}

/// `b` is exactly the bounding box of the component of the seed `s` in `m`:
/// it contains every cell of the component, and a component cell sits on
/// each of its four edges.
pub open spec fn blob_matches(m: MaskGrid, s: (int, int), b: BlackStone) -> bool {
    &&& m.cell(s.0, s.1)
    &&& b.wf()
    &&& forall|x: int, y: int|
        #![trigger reachable(m, s, (x, y))]
        reachable(m, s, (x, y)) ==> b.spec_contains(x, y)
    &&& exists|c: (int, int)| reachable(m, s, c) && c.0 == b.top_left.x as int
    &&& exists|c: (int, int)| reachable(m, s, c) && c.0 == b.bottom_right.x as int
    &&& exists|c: (int, int)| reachable(m, s, c) && c.1 == b.top_left.y as int
    &&& exists|c: (int, int)| reachable(m, s, c) && c.1 == b.bottom_right.y as int
}

/// Whether some seed's component claims the cell `(x, y)`.
pub open spec fn claimed(m0: MaskGrid, seeds: Seq<(int, int)>, x: int, y: int) -> bool {
    exists|i: int| 0 <= i < seeds.len() && reachable(m0, #[trigger] seeds[i], (x, y))
}

/// The full statement of blob extraction: one blob per 8-connected component
/// of true cells, each the exact bounding box of its component, the
/// components pairwise disjoint and together covering every true cell, listed
/// by the row-major rank of their first cells, each seed the row-major first
/// cell of its component.
pub open spec fn extraction_ok(m: MaskGrid, seeds: Seq<(int, int)>, blobs: Seq<BlackStone>) -> bool {
    &&& seeds.len() == blobs.len()
    &&& forall|i: int| 0 <= i < seeds.len() ==> blob_matches(m, #[trigger] seeds[i], blobs[i])
    &&& forall|i: int, j: int|
        0 <= i < seeds.len() && 0 <= j < seeds.len() && i != j ==> !reachable(
            m,
            #[trigger] seeds[i],
            #[trigger] seeds[j],
        )
    &&& forall|x: int, y: int| #[trigger] m.cell(x, y) ==> claimed(m, seeds, x, y)
    &&& forall|i: int, c: (int, int)|
        0 <= i < seeds.len() && #[trigger] reachable(m, seeds[i], c) ==> rm_rank(m, seeds[i])
            <= rm_rank(m, c)
    &&& forall|i: int, j: int|
        0 <= i < j < seeds.len() ==> rm_rank(m, #[trigger] seeds[i]) < rm_rank(
            m,
            #[trigger] seeds[j],
        )
}

/// Among the cells of one row, the row-major ranks below the start of the
/// next row are exactly those of this row and earlier rows.
#[verifier::nonlinear]
proof fn lemma_rank_row(w: int, cx: int, cy: int, y: int)
    requires
        0 <= cx < w,
    ensures
        cy * w + cx < (y + 1) * w <==> cy <= y,
        cy * w + cx < y * w + w <==> cy <= y,
{
}

/// Scan-step bookkeeping: claiming the component of a fresh seed at the scan
/// cursor extends the decomposition by one blob.
proof fn lemma_scan_hit(
    m0: MaskGrid,
    m_before: MaskGrid,
    m_after: MaskGrid,
    seeds: Seq<(int, int)>,
    blobs: Seq<BlackStone>,
    sp: (int, int),
    blob: BlackStone,
)
    requires
        m0.wf(),
        m_before.width == m0.width,
        m_before.height == m0.height,
        forall|x: int, y: int|
            #![trigger m_before.cell(x, y)]
            m_before.cell(x, y) == (m0.cell(x, y) && !claimed(m0, seeds, x, y)),
        seeds.len() == blobs.len(),
        forall|i: int| 0 <= i < seeds.len() ==> blob_matches(m0, #[trigger] seeds[i], blobs[i]),
        forall|i: int, j: int|
            0 <= i < seeds.len() && 0 <= j < seeds.len() && i != j ==> !reachable(
                m0,
                #[trigger] seeds[i],
                #[trigger] seeds[j],
            ),
        forall|i: int, c: (int, int)|
            0 <= i < seeds.len() && #[trigger] reachable(m0, seeds[i], c) ==> rm_rank(m0, seeds[i])
                <= rm_rank(m0, c),
        forall|i: int, j: int|
            0 <= i < j < seeds.len() ==> rm_rank(m0, #[trigger] seeds[i]) < rm_rank(
                m0,
                #[trigger] seeds[j],
            ),
        forall|i: int| 0 <= i < seeds.len() ==> rm_rank(m0, #[trigger] seeds[i]) < rm_rank(m0, sp),
        forall|cx: int, cy: int|
            0 <= cx < m0.width && 0 <= cy < m0.height && cy * (m0.width as int) + cx < rm_rank(
                m0,
                sp,
            ) ==> !m_before.cell(cx, cy),
        m_before.cell(sp.0, sp.1),
        forall|x: int, y: int|
            #![trigger m_after.cell(x, y)]
            m_after.cell(x, y) == (m_before.cell(x, y) && !reachable(m_before, sp, (x, y))),
        blob_matches(m_before, sp, blob),
    ensures
        forall|x: int, y: int|
            #![trigger m_after.cell(x, y)]
            m_after.cell(x, y) == (m0.cell(x, y) && !claimed(m0, seeds.push(sp), x, y)),
        forall|i: int|
            0 <= i < seeds.push(sp).len() ==> blob_matches(
                m0,
                #[trigger] seeds.push(sp)[i],
                blobs.push(blob)[i],
            ),
        forall|i: int, j: int|
            0 <= i < seeds.push(sp).len() && 0 <= j < seeds.push(sp).len() && i != j
                ==> !reachable(m0, #[trigger] seeds.push(sp)[i], #[trigger] seeds.push(sp)[j]),
        forall|i: int, c: (int, int)|
            0 <= i < seeds.push(sp).len() && #[trigger] reachable(m0, seeds.push(sp)[i], c)
                ==> rm_rank(m0, seeds.push(sp)[i]) <= rm_rank(m0, c),
        forall|i: int, j: int|
            0 <= i < j < seeds.push(sp).len() ==> rm_rank(m0, #[trigger] seeds.push(sp)[i])
                < rm_rank(m0, #[trigger] seeds.push(sp)[j]),
        forall|i: int|
            0 <= i < seeds.push(sp).len() ==> rm_rank(m0, #[trigger] seeds.push(sp)[i]) <= rm_rank(
                m0,
                sp,
            ),
{
    let seeds2 = seeds.push(sp);
    let blobs2 = blobs.push(blob);
    assert(!claimed(m0, seeds, sp.0, sp.1));
    assert(m0.cell(sp.0, sp.1));
    // the still-true cells reached from the new seed are the same whether
    // walked in the original mask or the current one
    assert forall|c: (int, int)| #[trigger] reachable(m0, sp, c) implies reachable(
        m_before,
        sp,
        c,
    ) by {
        assert forall|d: (int, int)| #[trigger] reachable(m0, sp, d) implies m_before.cell(
            d.0,
            d.1,
        ) by {
            crate::connect::lemma_reach_true(m0, sp, d);
            if claimed(m0, seeds, d.0, d.1) {
                let i = choose|i: int|
                    0 <= i < seeds.len() && reachable(m0, #[trigger] seeds[i], d);
                crate::connect::lemma_reach_sym(m0, sp, d);
                crate::connect::lemma_reach_trans(m0, seeds[i], d, sp);
                assert(claimed(m0, seeds, sp.0, sp.1));
            }
        }
        crate::connect::lemma_reach_restrict(m0, m_before, sp, c);
    }
    assert forall|c: (int, int)| #[trigger] reachable(m_before, sp, c) implies reachable(
        m0,
        sp,
        c,
    ) by {
        crate::connect::lemma_reach_mono(m_before, m0, sp, c);
    }
    // the cell equation for the extended seed list
    assert forall|x: int, y: int|
        #![trigger m_after.cell(x, y)]
        m_after.cell(x, y) == (m0.cell(x, y) && !claimed(m0, seeds2, x, y)) by {
        if claimed(m0, seeds2, x, y) {
            let i = choose|i: int| 0 <= i < seeds2.len() && reachable(m0, #[trigger] seeds2[i], (x, y));
            if i < seeds.len() {
                assert(claimed(m0, seeds, x, y));
            } else {
                assert(seeds2[i] == sp);
                assert(reachable(m_before, sp, (x, y)));
            }
            assert(!m_after.cell(x, y));
        } else {
            assert(!claimed(m0, seeds, x, y)) by {
                if claimed(m0, seeds, x, y) {
                    let i = choose|i: int|
                        0 <= i < seeds.len() && reachable(m0, #[trigger] seeds[i], (x, y));
                    assert(seeds2[i] == seeds[i]);
                    assert(claimed(m0, seeds2, x, y));
                }
            }
            assert(!reachable(m_before, sp, (x, y))) by {
                if reachable(m_before, sp, (x, y)) {
                    assert(seeds2[seeds.len() as int] == sp);
                    assert(claimed(m0, seeds2, x, y));
                }
            }
        }
    }
    // the new blob is the bounding box of the new seed's component in the
    // original mask
    assert(blob_matches(m0, sp, blob)) by {
        assert forall|x: int, y: int|
            #![trigger reachable(m0, sp, (x, y))]
            reachable(m0, sp, (x, y)) implies blob.spec_contains(x, y) by {
            assert(reachable(m_before, sp, (x, y)));
        }
        let c1 = choose|c: (int, int)| reachable(m_before, sp, c) && c.0 == blob.top_left.x as int;
        assert(reachable(m0, sp, c1));
        let c2 = choose|c: (int, int)|
            reachable(m_before, sp, c) && c.0 == blob.bottom_right.x as int;
        assert(reachable(m0, sp, c2));
        let c3 = choose|c: (int, int)| reachable(m_before, sp, c) && c.1 == blob.top_left.y as int;
        assert(reachable(m0, sp, c3));
        let c4 = choose|c: (int, int)|
            reachable(m_before, sp, c) && c.1 == blob.bottom_right.y as int;
        assert(reachable(m0, sp, c4));
    }
    assert forall|i: int| 0 <= i < seeds2.len() implies blob_matches(
        m0,
        #[trigger] seeds2[i],
        blobs2[i],
    ) by {
        if i < seeds.len() {
            assert(seeds2[i] == seeds[i] && blobs2[i] == blobs[i]);
        } else {
            assert(seeds2[i] == sp && blobs2[i] == blob);
        }
    }
    // the new seed's component is disjoint from every earlier one
    assert forall|i: int, j: int|
        0 <= i < seeds2.len() && 0 <= j < seeds2.len() && i != j implies !reachable(
        m0,
        #[trigger] seeds2[i],
        #[trigger] seeds2[j],
    ) by {
        if i < seeds.len() && j < seeds.len() {
            assert(seeds2[i] == seeds[i] && seeds2[j] == seeds[j]);
        } else if i < seeds.len() && j == seeds.len() {
            assert(seeds2[i] == seeds[i] && seeds2[j] == sp);
            if reachable(m0, seeds[i], sp) {
                assert(claimed(m0, seeds, sp.0, sp.1));
            }
        } else if i == seeds.len() && j < seeds.len() {
            assert(seeds2[i] == sp && seeds2[j] == seeds[j]);
            if reachable(m0, sp, seeds[j]) {
                crate::connect::lemma_reach_sym(m0, sp, seeds[j]);
                assert(claimed(m0, seeds, sp.0, sp.1));
            }
        }
    }
    // the new seed is the row-major first cell of its component
    assert forall|i: int, c: (int, int)|
        0 <= i < seeds2.len() && #[trigger] reachable(m0, seeds2[i], c) implies rm_rank(
        m0,
        seeds2[i],
    ) <= rm_rank(m0, c) by {
        if i < seeds.len() {
            assert(seeds2[i] == seeds[i]);
        } else {
            assert(seeds2[i] == sp);
            assert(reachable(m_before, sp, c));
            crate::connect::lemma_reach_true(m_before, sp, c);
            assert(m_before.cell(c.0, c.1));
            if rm_rank(m0, c) < rm_rank(m0, sp) {
                assert(!m_before.cell(c.0, c.1));
            }
        }
    }
    assert forall|i: int, j: int| 0 <= i < j < seeds2.len() implies rm_rank(
        m0,
        #[trigger] seeds2[i],
    ) < rm_rank(m0, #[trigger] seeds2[j]) by {
        if j < seeds.len() {
            assert(seeds2[i] == seeds[i] && seeds2[j] == seeds[j]);
        } else {
            assert(seeds2[i] == seeds[i] && seeds2[j] == sp);
        }
    }
    assert forall|i: int| 0 <= i < seeds2.len() implies rm_rank(m0, #[trigger] seeds2[i])
        <= rm_rank(m0, sp) by {
        if i < seeds.len() {
            assert(seeds2[i] == seeds[i]);
        } else {
            assert(seeds2[i] == sp);
        }
    }
}

/// Scans the mask in row-major order and cuts it into blobs: one axis-aligned
/// bounding box per 8-connected component of true cells. The mask is consumed;
/// every cell ends false. The blobs cover every true cell exactly once and
/// are listed in the order in which the scan first meets their components.
pub fn extract_blobs(mask: MaskGrid) -> (r: Vec<BlackStone>)
    requires
        mask.wf(),
        mask.width <= u32::MAX,
        mask.height <= u32::MAX,
    ensures
        exists|seeds: Seq<(int, int)>| #[trigger] extraction_ok(mask, seeds, r@),
{
    let ghost m0 = mask;
    let mut m = mask;
    let w: usize = m.width;
    let h: usize = m.height;
    let mut objects: Vec<BlackStone> = Vec::new();
    let ghost mut seeds: Seq<(int, int)> = Seq::empty();
    let mut y: usize = 0;
    while y < h
        invariant
            m0.wf(),
            w == m0.width,
            h == m0.height,
            m0.width <= u32::MAX,
            m0.height <= u32::MAX,
            m.wf(),
            m.width == m0.width,
            m.height == m0.height,
            y <= h,
            seeds.len() == objects@.len(),
            forall|x2: int, y2: int|
                #![trigger m.cell(x2, y2)]
                m.cell(x2, y2) == (m0.cell(x2, y2) && !claimed(m0, seeds, x2, y2)),
            forall|i: int|
                0 <= i < seeds.len() ==> blob_matches(m0, #[trigger] seeds[i], objects@[i]),
            forall|i: int, j: int|
                0 <= i < seeds.len() && 0 <= j < seeds.len() && i != j ==> !reachable(
                    m0,
                    #[trigger] seeds[i],
                    #[trigger] seeds[j],
                ),
            forall|i: int, c: (int, int)|
                0 <= i < seeds.len() && #[trigger] reachable(m0, seeds[i], c) ==> rm_rank(
                    m0,
                    seeds[i],
                ) <= rm_rank(m0, c),
            forall|i: int, j: int|
                0 <= i < j < seeds.len() ==> rm_rank(m0, #[trigger] seeds[i]) < rm_rank(
                    m0,
                    #[trigger] seeds[j],
                ),
            forall|i: int|
                0 <= i < seeds.len() ==> rm_rank(m0, #[trigger] seeds[i]) < (y as int) * (
                m0.width as int),
            forall|cx: int, cy: int|
                0 <= cx < m0.width && 0 <= cy < m0.height && cy * (m0.width as int) + cx < (
                y as int) * (m0.width as int) ==> !m.cell(cx, cy),
        decreases h - y,
    {
        let mut x: usize = 0;
        while x < w
            invariant
                m0.wf(),
                w == m0.width,
                h == m0.height,
                m0.width <= u32::MAX,
                m0.height <= u32::MAX,
                m.wf(),
                m.width == m0.width,
                m.height == m0.height,
                y < h,
                x <= w,
                seeds.len() == objects@.len(),
                forall|x2: int, y2: int|
                    #![trigger m.cell(x2, y2)]
                    m.cell(x2, y2) == (m0.cell(x2, y2) && !claimed(m0, seeds, x2, y2)),
                forall|i: int|
                    0 <= i < seeds.len() ==> blob_matches(m0, #[trigger] seeds[i], objects@[i]),
                forall|i: int, j: int|
                    0 <= i < seeds.len() && 0 <= j < seeds.len() && i != j ==> !reachable(
                        m0,
                        #[trigger] seeds[i],
                        #[trigger] seeds[j],
                    ),
                forall|i: int, c: (int, int)|
                    0 <= i < seeds.len() && #[trigger] reachable(m0, seeds[i], c) ==> rm_rank(
                        m0,
                        seeds[i],
                    ) <= rm_rank(m0, c),
                forall|i: int, j: int|
                    0 <= i < j < seeds.len() ==> rm_rank(m0, #[trigger] seeds[i]) < rm_rank(
                        m0,
                        #[trigger] seeds[j],
                    ),
                forall|i: int|
                    0 <= i < seeds.len() ==> rm_rank(m0, #[trigger] seeds[i]) < (y as int) * (
                    m0.width as int) + (x as int),
                forall|cx: int, cy: int|
                    0 <= cx < m0.width && 0 <= cy < m0.height && cy * (m0.width as int) + cx < (
                    y as int) * (m0.width as int) + (x as int) ==> !m.cell(cx, cy),
            decreases w - x,
        {
            if m.get(x, y) {
                let seed = Point::new(x as u32, y as u32);
                let ghost sp = (x as int, y as int);
                let ghost m_before = m;
                let mut object = BlackStone::new(seed);
                flood_fill(&mut object, &mut m);
                proof {
                    lemma_scan_hit(m0, m_before, m, seeds, objects@, sp, object);
                    seeds = seeds.push(sp);
                    lemma_reach_refl(m_before, sp);
                    assert(!m.cell(x as int, y as int));
                }
                objects.push(object);
            }
            proof {
                assert forall|cx: int, cy: int|
                    0 <= cx < m0.width && 0 <= cy < m0.height && cy * (m0.width as int) + cx < (
                    y as int) * (m0.width as int) + (x as int) + 1 implies !m.cell(cx, cy) by {
                    if cy * (m0.width as int) + cx == (y as int) * (m0.width as int) + (x as int) {
                        crate::mask::lemma_grid_index_injective(
                            m0.width as int,
                            cx,
                            cy,
                            x as int,
                            y as int,
                        );
                        if m.cell(cx, cy) {
                            lemma_reach_refl(m, (cx, cy));
                        }
                    }
                }
            }
            x += 1;
        }
        proof {
            assert((y as int) * (m0.width as int) + (w as int) == ((y as int) + 1) * (
            m0.width as int)) by (nonlinear_arith)
                requires
                    w == m0.width,
            ;
            assert forall|cx: int, cy: int|
                0 <= cx < m0.width && 0 <= cy < m0.height && cy * (m0.width as int) + cx < ((
                y as int) + 1) * (m0.width as int) implies !m.cell(cx, cy) by {
                lemma_rank_row(m0.width as int, cx, cy, y as int);
            }
        }
        y += 1;
    }
    proof {
        assert forall|x2: int, y2: int| #[trigger] m0.cell(x2, y2) implies claimed(
            m0,
            seeds,
            x2,
            y2,
        ) by {
            lemma_rank_row(m0.width as int, x2, y2, (h as int) - 1);
            assert(y2 * (m0.width as int) + x2 < (h as int) * (m0.width as int)) by (
            nonlinear_arith)
                requires
                    0 <= x2 < m0.width as int && 0 <= y2 < m0.height as int && m0.width == w
                        && m0.height == h,
            ;
            assert(!m.cell(x2, y2));
        }
        assert(extraction_ok(m0, seeds, objects@));
    }
    objects
}

/// How small a bounding box may be before it is discarded as noise: both
/// extents must exceed this many pixels.
pub const MIN_STONE_SIZE: u32 = 5;

/// Whether a blob survives the noise filter: wider and taller than the
/// absolute floor, with a width strictly between 0.66 and 1.5 times its
/// height.
pub open spec fn keeps_noise_filter(b: BlackStone) -> bool {
    &&& b.spec_width() > MIN_STONE_SIZE
    &&& b.spec_height() > MIN_STONE_SIZE
    &&& 66 * b.spec_height() < 100 * b.spec_width()
    &&& 100 * b.spec_width() < 150 * b.spec_height()
}

/// Two predicates that agree on the elements of a sequence filter it to the
/// same subsequence.
pub proof fn lemma_filter_congruent<A>(s: Seq<A>, p1: spec_fn(A) -> bool, p2: spec_fn(A) -> bool)
    requires
        forall|i: int| 0 <= i < s.len() ==> p1(#[trigger] s[i]) == p2(s[i]),
    ensures
        s.filter(p1) == s.filter(p2),
    decreases s.len(),
{
    reveal(Seq::filter);
    if s.len() != 0 {
        assert(p1(s.last()) == p2(s.last()));
        lemma_filter_congruent(s.drop_last(), p1, p2);
    }
}

/// A one-element sequence filters to itself or to nothing.
pub proof fn lemma_filter_one_blob(s: Seq<BlackStone>, pred: spec_fn(BlackStone) -> bool)
    requires
        s.len() == 1,
    ensures
        s.filter(pred) == if pred(s[0]) {
            s
        } else {
            Seq::<BlackStone>::empty()
        },
{
    reveal_with_fuel(Seq::filter, 2);
    assert(s.drop_last() =~= Seq::<BlackStone>::empty());
    if pred(s[0]) {
        assert(s.filter(pred) =~= s);
    } else {
        assert(s.filter(pred) =~= Seq::<BlackStone>::empty());
    }
}

/// Finds the objects within the mask: every 8-connected component of true
/// cells becomes a bounding box, and boxes too small or too lopsided to be
/// a stone are dropped as noise. The mask is consumed destructively.
pub fn find_black_objects(mask: MaskGrid) -> (r: Vec<BlackStone>)
    requires
        mask.wf(),
        mask.width <= u32::MAX,
        mask.height <= u32::MAX,
    ensures
        exists|seeds: Seq<(int, int)>, blobs: Seq<BlackStone>|
            #[trigger] extraction_ok(mask, seeds, blobs) && r@ == blobs.filter(
                |b: BlackStone| keeps_noise_filter(b),
            ),
{
    let all = extract_blobs(mask);
    let ghost seeds0 = choose|seeds: Seq<(int, int)>| #[trigger] extraction_ok(mask, seeds, all@);
    proof {
        assert forall|k: int| 0 <= k < all@.len() implies (#[trigger] all@[k]).wf() by {
            assert(blob_matches(mask, seeds0[k], all@[k]));
        }
    }
    let mut kept: Vec<BlackStone> = Vec::new();
    let mut i: usize = 0;
    while i < all.len()
        invariant
            i <= all@.len(),
            forall|k: int| 0 <= k < all@.len() ==> (#[trigger] all@[k]).wf(),
            kept@ == all@.subrange(0, i as int).filter(|b: BlackStone| keeps_noise_filter(b)),
        decreases all@.len() - i,
    {
        let b = &all[i];
        let bw: u64 = b.width() as u64;
        let bh: u64 = b.height() as u64;
        let keep = bw > MIN_STONE_SIZE as u64 && bh > MIN_STONE_SIZE as u64 && 66 * bh < 100 * bw
            && 100 * bw < 150 * bh;
        if keep {
            kept.push(*b);
        }
        proof {
            let pred = |b2: BlackStone| keeps_noise_filter(b2);
            let pre = all@.subrange(0, i as int);
            let one = seq![all@[i as int]];
            assert(all@.subrange(0, i as int + 1) =~= pre + one);
            Seq::filter_distributes_over_add(pre, one, pred);
            lemma_filter_one_blob(one, pred);
            if keep {
                assert(kept@ =~= (pre + one).filter(pred));
            } else {
                assert(kept@ =~= (pre + one).filter(pred));
            }
        }
        i += 1;
    }
    proof {
        assert(all@.subrange(0, all@.len() as int) =~= all@);
        assert(extraction_ok(mask, seeds0, all@) && kept@ == all@.filter(
            |b: BlackStone| keeps_noise_filter(b),
        ));
    }
    kept
}

/// Blob partition: the components of the seeds cover every true cell, hold
/// only true cells, are pairwise disjoint, and each is 8-connected through
/// itself — any two of its cells are joined by a walk over true cells.
pub proof fn lemma_blob_partition(m: MaskGrid, seeds: Seq<(int, int)>, blobs: Seq<BlackStone>)
    requires
        extraction_ok(m, seeds, blobs),
    ensures
        forall|x: int, y: int|
            #[trigger] m.cell(x, y) ==> exists|i: int|
                0 <= i < seeds.len() && reachable(m, #[trigger] seeds[i], (x, y)),
        forall|i: int, c: (int, int)|
            0 <= i < seeds.len() && #[trigger] reachable(m, seeds[i], c) ==> m.cell(c.0, c.1),
        forall|i: int, j: int, c: (int, int)|
            0 <= i < seeds.len() && 0 <= j < seeds.len() && i != j ==> !(#[trigger] reachable(
                m,
                seeds[i],
                c,
            ) && #[trigger] reachable(m, seeds[j], c)),
        forall|i: int, c: (int, int), d: (int, int)|
            0 <= i < seeds.len() && #[trigger] reachable(m, seeds[i], c) && #[trigger] reachable(
                m,
                seeds[i],
                d,
            ) ==> reachable(m, c, d),
{
    assert forall|i: int, c: (int, int)|
        0 <= i < seeds.len() && #[trigger] reachable(m, seeds[i], c) implies m.cell(c.0, c.1) by {
        crate::connect::lemma_reach_true(m, seeds[i], c);
    }
    assert forall|i: int, j: int, c: (int, int)|
        0 <= i < seeds.len() && 0 <= j < seeds.len() && i != j implies !(#[trigger] reachable(
        m,
        seeds[i],
        c,
    ) && #[trigger] reachable(m, seeds[j], c)) by {
        if reachable(m, seeds[i], c) && reachable(m, seeds[j], c) {
            crate::connect::lemma_reach_sym(m, seeds[j], c);
            crate::connect::lemma_reach_trans(m, seeds[i], c, seeds[j]);
        }
    }
    assert forall|i: int, c: (int, int), d: (int, int)|
        0 <= i < seeds.len() && #[trigger] reachable(m, seeds[i], c) && #[trigger] reachable(
            m,
            seeds[i],
            d,
        ) implies reachable(m, c, d) by {
        crate::connect::lemma_reach_sym(m, seeds[i], c);
        crate::connect::lemma_reach_trans(m, c, seeds[i], d);
    }
}

/// Bounding-box tightness: each blob contains its whole component, and a
/// true component cell sits on each of its four edges.
pub proof fn lemma_bounding_box_tight(
    m: MaskGrid,
    seeds: Seq<(int, int)>,
    blobs: Seq<BlackStone>,
    i: int,
)
    requires
        extraction_ok(m, seeds, blobs),
        0 <= i < blobs.len(),
    ensures
        forall|c: (int, int)|
            #[trigger] reachable(m, seeds[i], c) ==> blobs[i].spec_contains(c.0, c.1),
        exists|c: (int, int)|
            m.cell(c.0, c.1) && #[trigger] reachable(m, seeds[i], c) && c.0
                == blobs[i].top_left.x as int,
        exists|c: (int, int)|
            m.cell(c.0, c.1) && #[trigger] reachable(m, seeds[i], c) && c.0
                == blobs[i].bottom_right.x as int,
        exists|c: (int, int)|
            m.cell(c.0, c.1) && #[trigger] reachable(m, seeds[i], c) && c.1
                == blobs[i].top_left.y as int,
        exists|c: (int, int)|
            m.cell(c.0, c.1) && #[trigger] reachable(m, seeds[i], c) && c.1
                == blobs[i].bottom_right.y as int,
{
    assert(blob_matches(m, seeds[i], blobs[i]));
    assert forall|c: (int, int)|
        #[trigger] reachable(m, seeds[i], c) implies blobs[i].spec_contains(c.0, c.1) by {
        assert(reachable(m, seeds[i], (c.0, c.1)));
    }
    let c1 = choose|c: (int, int)|
        reachable(m, seeds[i], c) && c.0 == blobs[i].top_left.x as int;
    crate::connect::lemma_reach_true(m, seeds[i], c1);
    let c2 = choose|c: (int, int)|
        reachable(m, seeds[i], c) && c.0 == blobs[i].bottom_right.x as int;
    crate::connect::lemma_reach_true(m, seeds[i], c2);
    let c3 = choose|c: (int, int)|
        reachable(m, seeds[i], c) && c.1 == blobs[i].top_left.y as int;
    crate::connect::lemma_reach_true(m, seeds[i], c3);
    let c4 = choose|c: (int, int)|
        reachable(m, seeds[i], c) && c.1 == blobs[i].bottom_right.y as int;
    crate::connect::lemma_reach_true(m, seeds[i], c4);
}

} // verus!
