//! 8-connectivity over the true cells of a mask, and its little theory:
//! reachability is reflexive, symmetric, transitive, and survives the
//! right mask changes.

use vstd::prelude::*;
use crate::mask::MaskGrid;
use crate::num_ext::abs_diff;

verus! {

/// Whether `b` lies in the Moore neighborhood of `a`: the eight cells
/// surrounding `a` in the grid.
pub open spec fn adj8(a: (int, int), b: (int, int)) -> bool {
    &&& abs_diff(a.0, b.0) <= 1
    &&& abs_diff(a.1, b.1) <= 1
    &&& a != b
}

/// A walk over true cells of `m`: nonempty, every cell true, consecutive
/// cells 8-adjacent.
pub open spec fn is_path(m: MaskGrid, p: Seq<(int, int)>) -> bool {
    &&& p.len() >= 1
    &&& forall|i: int| 0 <= i < p.len() ==> m.cell(#[trigger] p[i].0, p[i].1)
    &&& forall|i: int| 0 <= i < p.len() - 1 ==> adj8(#[trigger] p[i], p[i + 1])
}

/// Whether the true cell `c` belongs to the same 8-connected component of
/// true cells as `s`.
pub open spec fn reachable(m: MaskGrid, s: (int, int), c: (int, int)) -> bool {
    exists|p: Seq<(int, int)>| #[trigger] is_path(m, p) && p.first() == s && p.last() == c
}

/// A true cell reaches itself.
pub proof fn lemma_reach_refl(m: MaskGrid, s: (int, int))
    requires
        m.cell(s.0, s.1),
    ensures
        reachable(m, s, s),
{
    let p = seq![s];
    assert(is_path(m, p) && p.first() == s && p.last() == s);
}

/// Reachability extends over one step to an adjacent true cell.
pub proof fn lemma_reach_step(m: MaskGrid, s: (int, int), c: (int, int), n: (int, int))
    requires
        reachable(m, s, c),
        adj8(c, n),
        m.cell(n.0, n.1),
    ensures
        reachable(m, s, n),
{
    let p = choose|p: Seq<(int, int)>| #[trigger] is_path(m, p) && p.first() == s && p.last() == c;
    let q = p.push(n);
    assert(q.last() == n);
    assert forall|i: int| 0 <= i < q.len() - 1 implies adj8(#[trigger] q[i], q[i + 1]) by {
        if i < p.len() - 1 {
            assert(adj8(p[i], p[i + 1]));
        } else {
            assert(q[i] == p.last());
        }
    }
    assert(is_path(m, q));
}

/// Both ends of a path are true cells.
pub proof fn lemma_reach_true(m: MaskGrid, s: (int, int), c: (int, int))
    requires
        reachable(m, s, c),
    ensures
        m.cell(s.0, s.1),
        m.cell(c.0, c.1),
{
    let p = choose|p: Seq<(int, int)>| #[trigger] is_path(m, p) && p.first() == s && p.last() == c;
    assert(m.cell(p[0].0, p[0].1));
    assert(m.cell(p[p.len() - 1].0, p[p.len() - 1].1));
}

/// Reachability is transitive.
pub proof fn lemma_reach_trans(m: MaskGrid, a: (int, int), b: (int, int), c: (int, int))
    requires
        reachable(m, a, b),
        reachable(m, b, c),
    ensures
        reachable(m, a, c),
{
    let p = choose|p: Seq<(int, int)>| #[trigger] is_path(m, p) && p.first() == a && p.last() == b;
    let q = choose|q: Seq<(int, int)>| #[trigger] is_path(m, q) && q.first() == b && q.last() == c;
    let r = p + q.drop_first();
    if q.len() == 1 {
        assert(r =~= p);
    } else {
        assert(r.first() == a);
        assert(r.last() == q.drop_first().last());
        assert(q.drop_first().last() == q.last());
        assert forall|i: int| 0 <= i < r.len() implies m.cell(#[trigger] r[i].0, r[i].1) by {
            if i < p.len() {
                assert(m.cell(p[i].0, p[i].1));
            } else {
                assert(r[i] == q[i - p.len() + 1]);
                assert(m.cell(q[i - p.len() + 1].0, q[i - p.len() + 1].1));
            }
        }
        assert forall|i: int| 0 <= i < r.len() - 1 implies adj8(#[trigger] r[i], r[i + 1]) by {
            if i < p.len() - 1 {
                assert(adj8(p[i], p[i + 1]));
            } else if i == p.len() - 1 {
                assert(r[i] == b);
                assert(r[i + 1] == q[1]);
                assert(adj8(q[0], q[1]));
            } else {
                assert(r[i] == q[i - p.len() + 1]);
                assert(r[i + 1] == q[i - p.len() + 2]);
                assert(adj8(q[i - p.len() + 1], q[i - p.len() + 2]));
            }
        }
        assert(is_path(m, r));
    }
}

/// Reachability is symmetric: the reverse of a path is a path.
pub proof fn lemma_reach_sym(m: MaskGrid, a: (int, int), b: (int, int))
    requires
        reachable(m, a, b),
    ensures
        reachable(m, b, a),
{
    let p = choose|p: Seq<(int, int)>| #[trigger] is_path(m, p) && p.first() == a && p.last() == b;
    let n = p.len() as int;
    let r = Seq::new(p.len(), |i: int| p[n - 1 - i]);
    assert(r.first() == b);
    assert(r.last() == a);
    assert forall|i: int| 0 <= i < r.len() - 1 implies adj8(#[trigger] r[i], r[i + 1]) by {
        assert(adj8(p[n - 2 - i], p[n - 1 - i]));
    }
    assert(is_path(m, r));
}

/// A path survives into any mask with at least the same true cells.
pub proof fn lemma_reach_mono(m1: MaskGrid, m2: MaskGrid, s: (int, int), c: (int, int))
    requires
        reachable(m1, s, c),
        forall|x: int, y: int| m1.cell(x, y) ==> m2.cell(x, y),
    ensures
        reachable(m2, s, c),
{
    let p = choose|p: Seq<(int, int)>| #[trigger] is_path(m1, p) && p.first() == s && p.last() == c;
    assert forall|i: int| 0 <= i < p.len() implies m2.cell(#[trigger] p[i].0, p[i].1) by {
        assert(m1.cell(p[i].0, p[i].1));
    }
    assert(is_path(m2, p));
}

/// Every cell on a path from `s` is itself reachable from `s`, so if every
/// cell that `s` reaches in `m1` is still true in `m2`, reachability from
/// `s` carries over to `m2`.
pub proof fn lemma_reach_restrict(m1: MaskGrid, m2: MaskGrid, s: (int, int), c: (int, int))
    requires
        reachable(m1, s, c),
        forall|d: (int, int)| #[trigger] reachable(m1, s, d) ==> m2.cell(d.0, d.1),
    ensures
        reachable(m2, s, c),
{
    let p = choose|p: Seq<(int, int)>| #[trigger] is_path(m1, p) && p.first() == s && p.last() == c;
    assert forall|i: int| 0 <= i < p.len() implies m2.cell(#[trigger] p[i].0, p[i].1) by {
        let q = p.subrange(0, i + 1);
        assert forall|j: int| 0 <= j < q.len() implies m1.cell(#[trigger] q[j].0, q[j].1) by {
            assert(m1.cell(p[j].0, p[j].1));
        }
        assert forall|j: int| 0 <= j < q.len() - 1 implies adj8(#[trigger] q[j], q[j + 1]) by {
            assert(adj8(p[j], p[j + 1]));
        }
        assert(is_path(m1, q) && q.first() == s && q.last() == p[i]);
        assert(reachable(m1, s, p[i]));
    }
    assert(is_path(m2, p));
}

/// Once a flood fill has stopped — the seed is cleared, and no cleared cell
/// has a still-true neighbor — every cell of the seed's component is cleared.
pub proof fn lemma_component_swept(m0: MaskGrid, m: MaskGrid, s: (int, int), c: (int, int))
    requires
        m0.cell(s.0, s.1),
        !m.cell(s.0, s.1),
        forall|x: int, y: int| #[trigger] m.cell(x, y) ==> m0.cell(x, y),
        forall|cx: int, cy: int, nx: int, ny: int|
            m0.cell(cx, cy) && !m.cell(cx, cy) && #[trigger] adj8((cx, cy), (nx, ny)) && m0.cell(
                nx,
                ny,
            ) ==> !m.cell(nx, ny),
        reachable(m0, s, c),
    ensures
        !m.cell(c.0, c.1),
        m0.cell(c.0, c.1),
{
    let p = choose|p: Seq<(int, int)>| #[trigger] is_path(m0, p) && p.first() == s && p.last() == c;
    assert forall|i: int| 0 <= i < p.len() implies !m.cell(#[trigger] p[i].0, p[i].1) by {
        lemma_path_prefix_swept(m0, m, p, i);
    }
    assert(m0.cell(p[p.len() - 1].0, p[p.len() - 1].1));
}

/// Induction step for `lemma_component_swept`, along the path index.
proof fn lemma_path_prefix_swept(m0: MaskGrid, m: MaskGrid, p: Seq<(int, int)>, i: int)
    requires
        is_path(m0, p),
        !m.cell(p.first().0, p.first().1),
        forall|x: int, y: int| #[trigger] m.cell(x, y) ==> m0.cell(x, y),
        forall|cx: int, cy: int, nx: int, ny: int|
            m0.cell(cx, cy) && !m.cell(cx, cy) && #[trigger] adj8((cx, cy), (nx, ny)) && m0.cell(
                nx,
                ny,
            ) ==> !m.cell(nx, ny),
        0 <= i < p.len(),
    ensures
        !m.cell(p[i].0, p[i].1),
    decreases i,
{
    if i > 0 {
        lemma_path_prefix_swept(m0, m, p, i - 1);
        assert(adj8(p[i - 1], p[i]));
        assert(m0.cell(p[i - 1].0, p[i - 1].1));
        assert(m0.cell(p[i].0, p[i].1));
        assert(adj8((p[i - 1].0, p[i - 1].1), (p[i].0, p[i].1)));
    }
}

} // verus!
