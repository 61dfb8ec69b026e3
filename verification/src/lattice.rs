//! Lattice assignment: snapping stone centers onto integer board
//! coordinates around the stone nearest the centroid.

use vstd::prelude::*;
use vstd::arithmetic::div_mod::lemma_mod_division_less_than_divisor;
use crate::point::Point;
use crate::spacing::EST_CAP;
use crate::spacing::SCALE;

verus! {

/// The absolute value of a mathematical integer.
pub open spec fn int_abs(a: int) -> int {
    if a >= 0 {
        a
    } else {
        -a
    }
}

/// No lattice coordinate may lie further than this from the reference
/// stone: no legal board is wider.
pub const MAX_LATTICE_COORD: i64 = 20;

/// The fractional remainder of a pixel offset against the spacing: how far
/// `|d| / spacing` lies past its floor, scaled by the spacing.
pub open spec fn spec_frac_rem(d: int, sp: int) -> int {
    (int_abs(d) * SCALE) % sp
}

/// The fit error of a stone against the lattice, scaled by twice the
/// spacing: zero when both offsets are whole multiples of the spacing, and
/// largest — twice the spacing — when both lie halfway between multiples.
pub open spec fn spec_fit2(p: Point, r: Point, sp: int) -> int {
    let rx = spec_frac_rem(p.x - r.x, sp);
    let ry = spec_frac_rem(p.y - r.y, sp);
    2 * sp - int_abs(sp - 2 * rx) - int_abs(sp - 2 * ry)
}

/// Whether a pixel offset lies outside any legal board: more than twenty
/// lattice units from the reference.
pub open spec fn spec_far(d: int, sp: int) -> bool {
    int_abs(d) * SCALE > MAX_LATTICE_COORD * sp
}

/// The signed lattice coordinate of a pixel offset: the magnitude of
/// `d / spacing` rounded to the nearest integer, with the sign of `d`
/// (an offset of zero counts as positive).
pub open spec fn spec_round_coord(d: int, sp: int) -> int {
    let m = (2 * int_abs(d) * SCALE + sp) / (2 * sp);
    if d >= 0 {
        m
    } else {
        -m
    }
}

/// Where a stone at `p` lands on the lattice centered at `r` with the given
/// spacing: `None` when either offset is too far out or the fit error
/// exceeds one half, otherwise the rounded signed lattice coordinates.
pub open spec fn spec_verdict(p: Point, r: Point, sp: int) -> Option<(int, int)> {
    let dx = p.x - r.x;
    let dy = p.y - r.y;
    if spec_far(dx, sp) || spec_far(dy, sp) {
        None
    } else if spec_fit2(p, r, sp) > sp {
        None
    } else {
        Some((spec_round_coord(dx, sp), spec_round_coord(dy, sp)))
    }
}

/// The view of a stored lattice key as a pair of mathematical integers.
pub open spec fn kv(k: (i8, i8)) -> (int, int) {
    (k.0 as int, k.1 as int)
}

/// Whether the stone at index `i` (not the reference) lands on lattice
/// point `k`.
pub open spec fn maps_to(centers: Seq<Point>, ri: int, sp: int, i: int, k: (int, int)) -> bool {
    &&& 0 <= i < centers.len()
    &&& i != ri
    &&& spec_verdict(centers[i], centers[ri], sp) == Some(k)
}

/// The reconstructed board: each occupied lattice intersection, relative to
/// the reference stone at (0, 0), mapped to the pixel center of the stone
/// occupying it.
pub struct BoardMap {
    pub entries: Vec<((i8, i8), Point)>,
}

impl BoardMap {
    /// Keys are unique.
    pub open spec fn wf(self) -> bool {
        forall|a: int, b: int|
            0 <= a < b < self.entries@.len() ==> kv(#[trigger] self.entries@[a].0) != kv(
                #[trigger] self.entries@[b].0,
            )
    }

    /// Whether some entry carries the lattice key `k`.
    pub open spec fn spec_contains_key(self, k: (int, int)) -> bool {
        exists|a: int| 0 <= a < self.entries@.len() && kv(#[trigger] self.entries@[a].0) == k
    }

    /// How many intersections are mapped.
    pub fn len(&self) -> (n: usize)
        ensures
            n == self.entries@.len(),
    {
        self.entries.len()
    }

    /// The pixel center recorded for a lattice point, if any stone was
    /// assigned there.
    pub fn get(&self, column: i8, row: i8) -> (r: Option<Point>)
        ensures
            match r {
                Some(p) => exists|a: int|
                    0 <= a < self.entries@.len() && #[trigger] self.entries@[a] == (
                        (column, row),
                        p,
                    ),
                None => !self.spec_contains_key((column as int, row as int)),
            },
    {
        let n = self.entries.len();
        let mut a: usize = 0;
        while a < n
            invariant
                n == self.entries@.len(),
                a <= n,
                forall|b: int|
                    0 <= b < a ==> kv(#[trigger] self.entries@[b].0) != (column as int, row as int),
            decreases n - a,
        {
            let (k, p) = self.entries[a];
            if k.0 == column && k.1 == row {
                proof {
                    assert(self.entries@[a as int] == ((column, row), p));
                }
                return Some(p);
            }
            a += 1;
        }
        None
    }
}

/// Judges one stone against the lattice: either its signed lattice
/// coordinates with its scaled fit error, or nothing when the stone lies
/// too far out or off the grid.
fn stone_verdict(p: Point, r: Point, sp: i64) -> (res: Option<((i8, i8), i64)>)
    requires
        1 <= sp <= EST_CAP,
    ensures
        match res {
            None => spec_verdict(p, r, sp as int) is None,
            Some((k, fe)) => {
                &&& spec_verdict(p, r, sp as int) == Some(kv(k))
                &&& fe == spec_fit2(p, r, sp as int)
                &&& 0 <= fe <= sp
            },
        },
{
    let dx: i64 = (p.x as i64) - (r.x as i64);
    let dy: i64 = (p.y as i64) - (r.y as i64);
    let adx: i64 = if dx >= 0 {
        dx
    } else {
        -dx
    };
    let ady: i64 = if dy >= 0 {
        dy
    } else {
        -dy
    };
    if adx * SCALE > MAX_LATTICE_COORD * sp || ady * SCALE > MAX_LATTICE_COORD * sp {
        return None;
    }
    let rx: i64 = (adx * SCALE) % sp;
    let ry: i64 = (ady * SCALE) % sp;
    proof {
        lemma_mod_division_less_than_divisor((adx as int) * (SCALE as int), sp as int);
        lemma_mod_division_less_than_divisor((ady as int) * (SCALE as int), sp as int);
        assert(0 <= (adx as int) * (SCALE as int)) by (nonlinear_arith)
            requires
                adx >= 0,
        ;
        assert(0 <= (ady as int) * (SCALE as int)) by (nonlinear_arith)
            requires
                ady >= 0,
        ;
    }
    let gx: i64 = if sp - 2 * rx >= 0 {
        sp - 2 * rx
    } else {
        2 * rx - sp
    };
    let gy: i64 = if sp - 2 * ry >= 0 {
        sp - 2 * ry
    } else {
        2 * ry - sp
    };
    let fe: i64 = 2 * sp - gx - gy;
    if fe > sp {
        return None;
    }
    let mx: i64 = (2 * adx * SCALE + sp) / (2 * sp);
    let my: i64 = (2 * ady * SCALE + sp) / (2 * sp);
    proof {
        assert(2 * (adx as int) * (SCALE as int) + sp < (2 * (sp as int)) * (MAX_LATTICE_COORD
            + 1)) by (nonlinear_arith)
            requires
                (adx as int) * (SCALE as int) <= MAX_LATTICE_COORD * (sp as int),
                sp >= 1,
        ;
        crate::spacing::lemma_div_below_pub(
            2 * (adx as int) * (SCALE as int) + sp,
            2 * (sp as int),
            MAX_LATTICE_COORD + 1,
        );
        crate::spacing::lemma_div_above_pub(2 * (adx as int) * (SCALE as int) + sp, 2 * (sp as int), 0);
        assert(2 * (ady as int) * (SCALE as int) + sp < (2 * (sp as int)) * (MAX_LATTICE_COORD
            + 1)) by (nonlinear_arith)
            requires
                (ady as int) * (SCALE as int) <= MAX_LATTICE_COORD * (sp as int),
                sp >= 1,
        ;
        crate::spacing::lemma_div_below_pub(
            2 * (ady as int) * (SCALE as int) + sp,
            2 * (sp as int),
            MAX_LATTICE_COORD + 1,
        );
        crate::spacing::lemma_div_above_pub(2 * (ady as int) * (SCALE as int) + sp, 2 * (sp as int), 0);
    }
    let col: i8 = if dx >= 0 {
        mx as i8
    } else {
        -(mx as i8)
    };
    let row: i8 = if dy >= 0 {
        my as i8
    } else {
        -(my as i8)
    };
    Some(((col, row), fe))
}

/// The sum of the x coordinates of a list of stone centers.
pub open spec fn sum_x(s: Seq<Point>) -> int
    decreases s.len(),
{
    if s.len() == 0 {
        0
    } else {
        sum_x(s.drop_last()) + s.last().x
    }
}

/// The sum of the y coordinates of a list of stone centers.
pub open spec fn sum_y(s: Seq<Point>) -> int
    decreases s.len(),
{
    if s.len() == 0 {
        0
    } else {
        sum_y(s.drop_last()) + s.last().y
    }
}

/// The squared distance of `p` from the centroid of `n` stones whose
/// coordinates sum to `(sx, sy)`, scaled by `n * n` so that it stays an
/// integer.
pub open spec fn spec_dist2(p: Point, n: int, sx: int, sy: int) -> int {
    let ax = n * p.x - sx;
    let ay = n * p.y - sy;
    ax * ax + ay * ay
}

/// `ri` points at the stone closest to the centroid of all stones, the
/// earliest such stone on ties.
pub open spec fn is_best_ref(s: Seq<Point>, ri: int) -> bool {
    let n = s.len() as int;
    let sx = sum_x(s);
    let sy = sum_y(s);
    &&& 0 <= ri < n
    &&& forall|j: int|
        0 <= j < n ==> spec_dist2(s[ri], n, sx, sy) <= spec_dist2(#[trigger] s[j], n, sx, sy)
    &&& forall|j: int|
        0 <= j < ri ==> spec_dist2(s[ri], n, sx, sy) < spec_dist2(#[trigger] s[j], n, sx, sy)
}

/// More stones than this and the centroid arithmetic could no longer be
/// carried exactly; no photograph comes anywhere near it.
pub const MAX_STONES: usize = 0x8000_0000;

/// The squared distance of one stone from the centroid, scaled by `n * n`.
fn dist2(p: Point, n: u64, sx: u64, sy: u64) -> (d: u128)
    requires
        1 <= n <= 0x8000_0000,
        sx <= n * 0xffff_ffff,
        sy <= n * 0xffff_ffff,
    ensures
        d == spec_dist2(p, n as int, sx as int, sy as int),
{
    proof {
        assert((n as int) * (p.x as int) <= 0x8000_0000 * 0xffff_ffff && (n as int) * 0xffff_ffff
            <= 0x8000_0000 * 0xffff_ffff && 0 <= (n as int) * (p.x as int)) by (nonlinear_arith)
            requires
                1 <= n <= 0x8000_0000,
                0 <= (p.x as int) <= 0xffff_ffff,
        ;
        assert((n as int) * (p.y as int) <= 0x8000_0000 * 0xffff_ffff && 0 <= (n as int) * (
        p.y as int)) by (nonlinear_arith)
            requires
                1 <= n <= 0x8000_0000,
                0 <= (p.y as int) <= 0xffff_ffff,
        ;
    }
    let ax: i128 = (n as i128) * (p.x as i128) - (sx as i128);
    let ay: i128 = (n as i128) * (p.y as i128) - (sy as i128);
    proof {
        let bound: int = (0x8000_0000 * 0xffff_ffff) as int;
        assert((ax as int) * (ax as int) <= bound * bound && 0 <= (ax as int) * (ax as int))
            by (nonlinear_arith)
            requires
                -bound <= (ax as int) <= bound,
        ;
        assert((ay as int) * (ay as int) <= bound * bound && 0 <= (ay as int) * (ay as int))
            by (nonlinear_arith)
            requires
                -bound <= (ay as int) <= bound,
        ;
    }
    let dx2: u128 = (ax * ax) as u128;
    let dy2: u128 = (ay * ay) as u128;
    dx2 + dy2
}

/// Chooses the reference stone: the one closest to the centroid of all
/// stone centers, by squared distance, the earliest on ties.
pub fn pick_reference(stones: &Vec<Point>) -> (ri: usize)
    requires
        1 <= stones@.len() <= MAX_STONES,
    ensures
        is_best_ref(stones@, ri as int),
{
    let n = stones.len();
    let mut sx: u64 = 0;
    let mut sy: u64 = 0;
    let mut i: usize = 0;
    while i < n
        invariant
            n == stones@.len(),
            1 <= n <= MAX_STONES,
            i <= n,
            sx == sum_x(stones@.subrange(0, i as int)),
            sy == sum_y(stones@.subrange(0, i as int)),
            sx <= (i as int) * 0xffff_ffff,
            sy <= (i as int) * 0xffff_ffff,
        decreases n - i,
    {
        let p = stones[i];
        proof {
            assert(stones@.subrange(0, i as int + 1).drop_last() =~= stones@.subrange(
                0,
                i as int,
            ));
            assert((i as int) * 0xffff_ffff + 0xffff_ffff == (i as int + 1) * 0xffff_ffff)
                by (nonlinear_arith);
            assert((i as int + 1) * 0xffff_ffff <= 0x8000_0000 * 0xffff_ffff) by (nonlinear_arith)
                requires
                    i as int + 1 <= 0x8000_0000,
            ;
        }
        sx = sx + (p.x as u64);
        sy = sy + (p.y as u64);
        i += 1;
    }
    proof {
        assert(stones@.subrange(0, n as int) =~= stones@);
        assert(sx <= (n as u64) * 0xffff_ffff && sy <= (n as u64) * 0xffff_ffff)
            by (nonlinear_arith)
            requires
                sx <= (n as int) * 0xffff_ffff,
                sy <= (n as int) * 0xffff_ffff,
                n <= 0x8000_0000,
        ;
    }
    let mut best: usize = 0;
    let mut best_d: u128 = dist2(stones[0], n as u64, sx, sy);
    let mut j: usize = 1;
    while j < n
        invariant
            n == stones@.len(),
            1 <= n <= MAX_STONES,
            sx == sum_x(stones@),
            sy == sum_y(stones@),
            sx <= (n as u64) * 0xffff_ffff,
            sy <= (n as u64) * 0xffff_ffff,
            best < j <= n,
            1 <= j,
            best_d == spec_dist2(stones@[best as int], n as int, sx as int, sy as int),
            forall|k: int|
                0 <= k < j ==> best_d <= spec_dist2(#[trigger] stones@[k], n as int, sx as int, sy as int),
            forall|k: int|
                0 <= k < best ==> best_d < spec_dist2(#[trigger] stones@[k], n as int, sx as int, sy as int),
        decreases n - j,
    {
        let d = dist2(stones[j], n as u64, sx, sy);
        if d < best_d {
            best = j;
            best_d = d;
        }
        j += 1;
    }
    best
}

/// Whether some entry of the list carries the lattice key `k`.
pub open spec fn entries_has_key(es: Seq<((i8, i8), Point)>, k: (int, int)) -> bool {
    exists|a: int| 0 <= a < es.len() && kv(#[trigger] es[a].0) == k
}

/// The stone at index `i` won the entry: it maps to the entry's key, the
/// entry carries its center, and every other stone mapping there either
/// fits worse or came later with no better fit.
pub open spec fn winner_at(
    centers: Seq<Point>,
    ri: int,
    sp: int,
    entry: ((i8, i8), Point),
    i: int,
) -> bool {
    &&& maps_to(centers, ri, sp, i, kv(entry.0))
    &&& entry.1 == centers[i]
    &&& forall|j: int|
        #[trigger] maps_to(centers, ri, sp, j, kv(entry.0)) ==> spec_fit2(
            centers[j],
            centers[ri],
            sp,
        ) > spec_fit2(centers[i], centers[ri], sp) || (spec_fit2(centers[j], centers[ri], sp)
            == spec_fit2(centers[i], centers[ri], sp) && j >= i)
}

/// Finds the entry holding the given key, if any.
fn find_key(entries: &Vec<((i8, i8), Point)>, key: (i8, i8)) -> (r: Option<usize>)
    ensures
        match r {
            Some(a) => a < entries@.len() && entries@[a as int].0 == key,
            None => forall|a: int| 0 <= a < entries@.len() ==> (#[trigger] entries@[a].0) != key,
        },
{
    let n = entries.len();
    let mut a: usize = 0;
    while a < n
        invariant
            n == entries@.len(),
            a <= n,
            forall|b: int| 0 <= b < a ==> (#[trigger] entries@[b].0) != key,
        decreases n - a,
    {
        let (k, _) = entries[a];
        if k.0 == key.0 && k.1 == key.1 {
            proof {
                assert(entries@[a as int].0 == key);
            }
            return Some(a);
        }
        a += 1;
    }
    None
}

/// Each entry past the first is owned by the stone `ws[a]`: that stone maps
/// to the entry's key, the entry carries its center, and `fs[a]` carries its
/// scaled fit error. All owners lie below `bound`.
pub open spec fn winner_entries_ok(
    centers: Seq<Point>,
    ri: int,
    sp: int,
    es: Seq<((i8, i8), Point)>,
    fs: Seq<i64>,
    ws: Seq<int>,
    bound: int,
) -> bool {
    forall|a: int|
        1 <= a < es.len() ==> 0 <= #[trigger] ws[a] < bound && maps_to(
            centers,
            ri,
            sp,
            ws[a],
            kv(es[a].0),
        ) && es[a].1 == centers[ws[a]] && fs[a] == spec_fit2(centers[ws[a]], centers[ri], sp)
}

/// Every stone below `bound` that maps to some lattice point has an entry
/// there.
pub open spec fn all_mapped_in(
    centers: Seq<Point>,
    ri: int,
    sp: int,
    es: Seq<((i8, i8), Point)>,
    bound: int,
) -> bool {
    forall|j: int, k: (int, int)|
        0 <= j < bound && #[trigger] maps_to(centers, ri, sp, j, k) ==> entries_has_key(es, k)
}

/// Every entry beats, or ties and precedes, every stone below `bound` that
/// maps to its key.
pub open spec fn entries_minimal(
    centers: Seq<Point>,
    ri: int,
    sp: int,
    es: Seq<((i8, i8), Point)>,
    fs: Seq<i64>,
    ws: Seq<int>,
    bound: int,
) -> bool {
    forall|a: int, j: int|
        1 <= a < es.len() && 0 <= j < bound && #[trigger] maps_to(
            centers,
            ri,
            sp,
            j,
            kv(#[trigger] es[a].0),
        ) ==> spec_fit2(centers[j], centers[ri], sp) > fs[a] || (spec_fit2(
            centers[j],
            centers[ri],
            sp,
        ) == fs[a] && ws[a] <= j)
}

/// The full statement of lattice assignment: the reference stone owns
/// (0, 0); a lattice point is occupied exactly when some other stone is
/// judged onto it; and each entry belongs to the best-fitting earliest
/// stone that claims its key.
pub open spec fn assigned_ok(centers: Seq<Point>, ri: int, sp: int, m: BoardMap) -> bool {
    &&& m.wf()
    &&& m.spec_contains_key((0int, 0int))
    &&& forall|a: int|
        0 <= a < m.entries@.len() && kv(#[trigger] m.entries@[a].0) == (0int, 0int)
            ==> m.entries@[a].1 == centers[ri]
    &&& forall|k: (int, int)|
        #[trigger] m.spec_contains_key(k) <==> (k == (0int, 0int) || exists|i: int|
            maps_to(centers, ri, sp, i, k))
    &&& forall|a: int|
        0 <= a < m.entries@.len() && kv(#[trigger] m.entries@[a].0) != (0int, 0int)
            ==> exists|i: int| winner_at(centers, ri, sp, m.entries@[a], i)
}

/// Snaps every stone onto the lattice spanned by the reference stone and
/// the spacing. The reference maps to (0, 0); every other stone is either
/// rejected — too far out, or too far off the grid — or assigned its
/// rounded lattice coordinates. When two stones claim one intersection the
/// one with the lower fit error keeps it, the earlier one on ties.
pub fn assign_lattice(centers: &Vec<Point>, ref_idx: usize, spacing: i64) -> (m: BoardMap)
    requires
        ref_idx < centers@.len(),
        1 <= spacing <= EST_CAP,
    ensures
        m.wf(),
        m.spec_contains_key((0int, 0int)),
        forall|a: int|
            0 <= a < m.entries@.len() && kv(#[trigger] m.entries@[a].0) == (0int, 0int)
                ==> m.entries@[a].1 == centers@[ref_idx as int],
        forall|k: (int, int)|
            #[trigger] m.spec_contains_key(k) <==> (k == (0int, 0int) || exists|i: int|
                maps_to(centers@, ref_idx as int, spacing as int, i, k)),
        forall|a: int|
            0 <= a < m.entries@.len() && kv(#[trigger] m.entries@[a].0) != (0int, 0int)
                ==> exists|i: int|
                winner_at(centers@, ref_idx as int, spacing as int, m.entries@[a], i),
        assigned_ok(centers@, ref_idx as int, spacing as int, m),
{
    let n = centers.len();
    let rp = centers[ref_idx];
    let ghost ri = ref_idx as int;
    let ghost sp = spacing as int;
    let mut entries: Vec<((i8, i8), Point)> = Vec::new();
    let mut fes: Vec<i64> = Vec::new();
    entries.push(((0, 0), rp));
    fes.push(0);
    let ghost mut winners: Seq<int> = seq![-1];
    let mut i: usize = 0;
    while i < n
        invariant
            n == centers@.len(),
            ref_idx < n,
            ri == ref_idx as int,
            sp == spacing as int,
            1 <= spacing <= EST_CAP,
            rp == centers@[ri],
            i <= n,
            entries@.len() == fes@.len(),
            winners.len() == entries@.len(),
            entries@.len() >= 1,
            kv(entries@[0].0) == (0int, 0int),
            entries@[0].1 == rp,
            fes@[0] == 0,
            winners[0] == -1,
            forall|a: int, b: int|
                0 <= a < b < entries@.len() ==> kv(#[trigger] entries@[a].0) != kv(
                    #[trigger] entries@[b].0,
                ),
            winner_entries_ok(centers@, ri, sp, entries@, fes@, winners, i as int),
            forall|a: int| 0 <= a < fes@.len() ==> 0 <= #[trigger] fes@[a] <= sp,
            all_mapped_in(centers@, ri, sp, entries@, i as int),
            entries_minimal(centers@, ri, sp, entries@, fes@, winners, i as int),
        decreases n - i,
    {
        if i != ref_idx {
            let p = centers[i];
            match stone_verdict(p, rp, spacing) {
                None => {
                    proof {
                        assert forall|j: int, k2: (int, int)|
                            0 <= j < i + 1 && #[trigger] maps_to(centers@, ri, sp, j, k2)
                                implies entries_has_key(entries@, k2) by {
                            if j == i as int {
                                assert(spec_verdict(centers@[j], centers@[ri], sp) is None);
                            }
                        }
                        assert forall|a: int, j: int|
                            1 <= a < entries@.len() && 0 <= j < i + 1 && #[trigger] maps_to(
                                centers@,
                                ri,
                                sp,
                                j,
                                kv(#[trigger] entries@[a].0),
                            ) implies spec_fit2(centers@[j], centers@[ri], sp) > fes@[a] || (
                        spec_fit2(centers@[j], centers@[ri], sp) == fes@[a] && winners[a]
                            <= j) by {
                            if j == i as int {
                                assert(spec_verdict(centers@[j], centers@[ri], sp) is None);
                            }
                        }
                        assert(winner_entries_ok(
                            centers@,
                            ri,
                            sp,
                            entries@,
                            fes@,
                            winners,
                            i as int + 1,
                        ));
                    }
                },
                Some((key, fe)) => {
                    let ghost k = kv(key);
                    match find_key(&entries, key) {
                        None => {
                            let ghost es0 = entries@;
                            let ghost f0 = fes@;
                            let ghost w0 = winners;
                            entries.push((key, p));
                            fes.push(fe);
                            proof {
                                winners = winners.push(i as int);
                                assert forall|a2: int| 1 <= a2 < entries@.len() implies 0
                                    <= #[trigger] winners[a2] < i + 1 && maps_to(
                                    centers@,
                                    ri,
                                    sp,
                                    winners[a2],
                                    kv(entries@[a2].0),
                                ) && entries@[a2].1 == centers@[winners[a2]] && fes@[a2]
                                    == spec_fit2(centers@[winners[a2]], centers@[ri], sp) by {
                                    if a2 < es0.len() {
                                        assert(entries@[a2] == es0[a2]);
                                        assert(winners[a2] == w0[a2]);
                                        assert(fes@[a2] == f0[a2]);
                                        assert(0 <= w0[a2] < i);
                                    } else {
                                        assert(entries@[a2] == (key, p));
                                        assert(winners[a2] == i as int);
                                        assert(fes@[a2] == fe);
                                    }
                                }
                                assert(winner_entries_ok(
                                    centers@,
                                    ri,
                                    sp,
                                    entries@,
                                    fes@,
                                    winners,
                                    i as int + 1,
                                ));
                                assert forall|j: int, k2: (int, int)|
                                    0 <= j < i + 1 && #[trigger] maps_to(centers@, ri, sp, j, k2)
                                        implies entries_has_key(entries@, k2) by {
                                    if j < i {
                                        assert(entries_has_key(es0, k2));
                                        let a0 = choose|a: int|
                                            0 <= a < es0.len() && kv(#[trigger] es0[a].0) == k2;
                                        assert(kv(entries@[a0].0) == k2);
                                    } else {
                                        assert(k2 == k);
                                        assert(kv(entries@[es0.len() as int].0) == k);
                                    }
                                }
                                assert forall|a: int, j: int|
                                    1 <= a < entries@.len() && 0 <= j < i + 1 && #[trigger] maps_to(
                                        centers@,
                                        ri,
                                        sp,
                                        j,
                                        kv(#[trigger] entries@[a].0),
                                    ) implies spec_fit2(centers@[j], centers@[ri], sp) > fes@[a]
                                    || (spec_fit2(centers@[j], centers@[ri], sp) == fes@[a]
                                        && winners[a] <= j) by {
                                    if a < es0.len() {
                                        assert(entries@[a] == es0[a]);
                                        assert(winners[a] == w0[a]);
                                        assert(fes@[a] == f0[a]);
                                        if j == i as int {
                                            assert(kv(entries@[a].0) == k);
                                            assert(kv(es0[a].0) == k);
                                            assert(es0[a].0 == key);
                                            assert(false);
                                        }
                                    } else {
                                        assert(entries@[a].0 == key);
                                        assert(fes@[a] == fe);
                                        assert(winners[a] == i as int);
                                        if j < i {
                                            assert(entries_has_key(es0, k));
                                            let a0 = choose|b: int|
                                                0 <= b < es0.len() && kv(#[trigger] es0[b].0) == k;
                                            assert(es0[a0].0 == key);
                                            assert(false);
                                        }
                                    }
                                }
                                assert(entries_minimal(
                                    centers@,
                                    ri,
                                    sp,
                                    entries@,
                                    fes@,
                                    winners,
                                    i as int + 1,
                                ));
                            }
                        },
                        Some(a) => {
                            let cur = fes[a];
                            if fe < cur {
                                proof {
                                    if a == 0 {
                                        assert(fes@[0] == 0 && fe >= 0);
                                        assert(false);
                                    }
                                }
                                let ghost es0 = entries@;
                                let ghost f0 = fes@;
                                let ghost w0 = winners;
                                entries.set(a, (key, p));
                                fes.set(a, fe);
                                proof {
                                    winners = winners.update(a as int, i as int);
                                    assert(kv(entries@[a as int].0) == k);
                                    assert forall|b: int, c: int|
                                        0 <= b < c < entries@.len() implies kv(
                                        #[trigger] entries@[b].0,
                                    ) != kv(#[trigger] entries@[c].0) by {
                                        assert(kv(entries@[b].0) == kv(es0[b].0));
                                        assert(kv(entries@[c].0) == kv(es0[c].0));
                                    }
                                    assert forall|a2: int| 1 <= a2 < entries@.len() implies 0
                                        <= #[trigger] winners[a2] < i + 1 && maps_to(
                                        centers@,
                                        ri,
                                        sp,
                                        winners[a2],
                                        kv(entries@[a2].0),
                                    ) && entries@[a2].1 == centers@[winners[a2]] && fes@[a2]
                                        == spec_fit2(centers@[winners[a2]], centers@[ri], sp) by {
                                        if a2 != a as int {
                                            assert(entries@[a2] == es0[a2]);
                                            assert(winners[a2] == w0[a2]);
                                            assert(fes@[a2] == f0[a2]);
                                            assert(0 <= w0[a2] < i);
                                        } else {
                                            assert(entries@[a2] == (key, p));
                                            assert(winners[a2] == i as int);
                                            assert(fes@[a2] == fe);
                                        }
                                    }
                                    assert(winner_entries_ok(
                                        centers@,
                                        ri,
                                        sp,
                                        entries@,
                                        fes@,
                                        winners,
                                        i as int + 1,
                                    ));
                                    assert forall|j: int, k2: (int, int)|
                                        0 <= j < i + 1 && #[trigger] maps_to(
                                            centers@,
                                            ri,
                                            sp,
                                            j,
                                            k2,
                                        ) implies entries_has_key(entries@, k2) by {
                                        if j < i {
                                            assert(entries_has_key(es0, k2));
                                            let a0 = choose|b: int|
                                                0 <= b < es0.len() && kv(#[trigger] es0[b].0)
                                                    == k2;
                                            assert(kv(entries@[a0].0) == kv(es0[a0].0));
                                        } else {
                                            assert(k2 == k);
                                            assert(kv(entries@[a as int].0) == k);
                                        }
                                    }
                                    assert forall|b: int, j: int|
                                        1 <= b < entries@.len() && 0 <= j < i + 1
                                            && #[trigger] maps_to(
                                            centers@,
                                            ri,
                                            sp,
                                            j,
                                            kv(#[trigger] entries@[b].0),
                                        ) implies spec_fit2(centers@[j], centers@[ri], sp)
                                        > fes@[b] || (spec_fit2(centers@[j], centers@[ri], sp)
                                        == fes@[b] && winners[b] <= j) by {
                                        if b == a as int {
                                            assert(fes@[b] == fe);
                                            assert(winners[b] == i as int);
                                            if j < i {
                                                assert(kv(es0[b].0) == k);
                                                assert(maps_to(centers@, ri, sp, j, kv(es0[b].0)));
                                                assert(spec_fit2(centers@[j], centers@[ri], sp)
                                                    > f0[b] || (spec_fit2(
                                                    centers@[j],
                                                    centers@[ri],
                                                    sp,
                                                ) == f0[b] && w0[b] <= j));
                                            }
                                        } else {
                                            assert(entries@[b] == es0[b]);
                                            assert(winners[b] == w0[b]);
                                            assert(fes@[b] == f0[b]);
                                            if j == i as int {
                                                assert(kv(entries@[b].0) == k);
                                                assert(kv(entries@[a as int].0) == k);
                                                assert(false);
                                            } else {
                                                assert(maps_to(centers@, ri, sp, j, kv(es0[b].0)));
                                            }
                                        }
                                    }
                                    assert(entries_minimal(
                                        centers@,
                                        ri,
                                        sp,
                                        entries@,
                                        fes@,
                                        winners,
                                        i as int + 1,
                                    ));
                                }
                            } else {
                                proof {
                                    assert forall|b: int, j: int|
                                        1 <= b < entries@.len() && 0 <= j < i + 1
                                            && #[trigger] maps_to(
                                            centers@,
                                            ri,
                                            sp,
                                            j,
                                            kv(#[trigger] entries@[b].0),
                                        ) implies spec_fit2(centers@[j], centers@[ri], sp)
                                        > fes@[b] || (spec_fit2(centers@[j], centers@[ri], sp)
                                        == fes@[b] && winners[b] <= j) by {
                                        if j == i as int {
                                            assert(kv(entries@[b].0) == k);
                                            assert(kv(entries@[a as int].0) == k);
                                            assert(b == a as int);
                                            assert(spec_fit2(centers@[j], centers@[ri], sp) == fe);
                                            if a != 0 {
                                                assert(0 <= winners[a as int] < i);
                                            }
                                        }
                                    }
                                    assert(entries_minimal(
                                        centers@,
                                        ri,
                                        sp,
                                        entries@,
                                        fes@,
                                        winners,
                                        i as int + 1,
                                    ));
                                    assert forall|j: int, k2: (int, int)|
                                        0 <= j < i + 1 && #[trigger] maps_to(
                                            centers@,
                                            ri,
                                            sp,
                                            j,
                                            k2,
                                        ) implies entries_has_key(entries@, k2) by {
                                        if j == i as int {
                                            assert(k2 == k);
                                            assert(kv(entries@[a as int].0) == k);
                                        }
                                    }
                                    assert(winner_entries_ok(
                                        centers@,
                                        ri,
                                        sp,
                                        entries@,
                                        fes@,
                                        winners,
                                        i as int + 1,
                                    ));
                                }
                            }
                        },
                    }
                },
            }
        } else {
            proof {
                assert(winner_entries_ok(centers@, ri, sp, entries@, fes@, winners, i as int + 1));
                assert forall|j: int, k2: (int, int)|
                    0 <= j < i + 1 && #[trigger] maps_to(centers@, ri, sp, j, k2)
                        implies entries_has_key(entries@, k2) by {
                    if j == i as int {
                        assert(j == ri);
                        assert(!maps_to(centers@, ri, sp, j, k2));
                    }
                }
                assert forall|a: int, j: int|
                    1 <= a < entries@.len() && 0 <= j < i + 1 && #[trigger] maps_to(
                        centers@,
                        ri,
                        sp,
                        j,
                        kv(#[trigger] entries@[a].0),
                    ) implies spec_fit2(centers@[j], centers@[ri], sp) > fes@[a] || (spec_fit2(
                    centers@[j],
                    centers@[ri],
                    sp,
                ) == fes@[a] && winners[a] <= j) by {
                    if j == i as int {
                        assert(!maps_to(centers@, ri, sp, j, kv(entries@[a].0)));
                    }
                }
                assert(entries_minimal(centers@, ri, sp, entries@, fes@, winners, i as int + 1));
            }
        }
        i += 1;
    }
    let m = BoardMap { entries };
    proof {
        assert(kv(m.entries@[0].0) == (0int, 0int));
        assert forall|k: (int, int)| #[trigger] m.spec_contains_key(k) implies (k == (
        0int,
        0int,
        ) || exists|i2: int| maps_to(centers@, ri, sp, i2, k)) by {
            let a = choose|a: int|
                0 <= a < m.entries@.len() && kv(#[trigger] m.entries@[a].0) == k;
            if a != 0 {
                assert(maps_to(centers@, ri, sp, winners[a], k));
            } else {
                assert(kv(m.entries@[0].0) == k);
            }
        }
        assert forall|k: (int, int)|
            (k == (0int, 0int) || exists|i2: int| maps_to(centers@, ri, sp, i2, k))
            implies #[trigger] m.spec_contains_key(k) by {
            if k == (0int, 0int) {
                assert(kv(m.entries@[0].0) == k);
            } else {
                let i2 = choose|i2: int| maps_to(centers@, ri, sp, i2, k);
                assert(entries_has_key(m.entries@, k));
            }
        }
        assert forall|a: int|
            0 <= a < m.entries@.len() && kv(#[trigger] m.entries@[a].0) != (0int, 0int)
            implies exists|i2: int| winner_at(centers@, ri, sp, m.entries@[a], i2) by {
            assert(a != 0);
            let w = winners[a];
            assert(winner_at(centers@, ri, sp, m.entries@[a], w)) by {
                assert(0 <= w < n);
                assert(maps_to(centers@, ri, sp, w, kv(m.entries@[a].0)));
                assert(fes@[a] == spec_fit2(centers@[w], centers@[ri], sp));
                assert forall|j: int|
                    #[trigger] maps_to(centers@, ri, sp, j, kv(m.entries@[a].0)) implies spec_fit2(
                    centers@[j],
                    centers@[ri],
                    sp,
                ) > spec_fit2(centers@[w], centers@[ri], sp) || (spec_fit2(
                    centers@[j],
                    centers@[ri],
                    sp,
                ) == spec_fit2(centers@[w], centers@[ri], sp) && j >= w) by {
                    assert(0 <= j < n);
                }
            }
        }
    }
    m
}

/// A stone sitting exactly on the lattice — offset by whole multiples of
/// the spacing in both directions, at most twenty in magnitude — is judged
/// onto exactly those lattice coordinates, with a perfect fit.
pub proof fn lemma_verdict_on_lattice(p: Point, r: Point, s: int, k: int, j: int)
    requires
        1 <= s,
        s * SCALE <= EST_CAP,
        p.x as int == r.x + k * s,
        p.y as int == r.y + j * s,
        int_abs(k) <= MAX_LATTICE_COORD as int,
        int_abs(j) <= MAX_LATTICE_COORD as int,
    ensures
        spec_verdict(p, r, (s * SCALE) as int) == Some((k, j)),
        spec_fit2(p, r, (s * SCALE) as int) == 0,
{
    let sp = s * (SCALE as int);
    lemma_axis_on_lattice(p.x - r.x, k, s);
    lemma_axis_on_lattice(p.y - r.y, j, s);
    assert(2 * sp - int_abs(sp - 2 * 0) - int_abs(sp - 2 * 0) == 0);
}

/// One axis of the on-lattice judgment: an offset of exactly `k` spacings
/// is not far, leaves no fractional remainder, and rounds to `k`.
proof fn lemma_axis_on_lattice(d: int, k: int, s: int)
    requires
        1 <= s,
        d == k * s,
        int_abs(k) <= MAX_LATTICE_COORD as int,
    ensures
        !spec_far(d, s * SCALE),
        spec_frac_rem(d, s * SCALE) == 0,
        spec_round_coord(d, s * SCALE) == k,
{
    let sp = s * (SCALE as int);
    let ka = int_abs(k);
    assert(sp >= 65536);
    assert(int_abs(d) == ka * s) by (nonlinear_arith)
        requires
            d == k * s && s >= 1 && ka == int_abs(k),
    ;
    assert(int_abs(d) * SCALE == ka * sp) by (nonlinear_arith)
        requires
            int_abs(d) == ka * s && sp == s * 65536,
    ;
    assert(ka * sp <= 20 * sp) by (nonlinear_arith)
        requires
            0 <= ka <= 20 && sp >= 1,
    ;
    vstd::arithmetic::div_mod::lemma_mod_multiples_basic(ka, sp);
    assert(2 * int_abs(d) * SCALE + sp == ka * (2 * sp) + sp) by (nonlinear_arith)
        requires
            int_abs(d) * SCALE == ka * sp,
    ;
    vstd::arithmetic::div_mod::lemma_fundamental_div_mod_converse_div(
        2 * int_abs(d) * SCALE + sp,
        2 * sp,
        ka,
        sp,
    );
    if d >= 0 {
        assert(k >= 0) by (nonlinear_arith)
            requires
                d == k * s && s >= 1 && d >= 0,
        ;
    } else {
        assert(k < 0) by (nonlinear_arith)
            requires
                d == k * s && s >= 1 && d < 0,
        ;
    }
}

/// A stone offset from the lattice by half the spacing in both directions
/// has the worst possible fit and is rejected.
pub proof fn lemma_verdict_half_offset(p: Point, r: Point, s: int, k: int, j: int)
    requires
        2 <= s,
        s % 2 == 0,
        s * SCALE <= EST_CAP,
        p.x as int == r.x + k * s + s / 2,
        p.y as int == r.y + j * s + s / 2,
        0 <= k < MAX_LATTICE_COORD as int,
        0 <= j < MAX_LATTICE_COORD as int,
    ensures
        spec_verdict(p, r, (s * SCALE) as int) is None,
        spec_fit2(p, r, (s * SCALE) as int) == 2 * s * SCALE,
{
    let sp = s * (SCALE as int);
    lemma_axis_fraction(p.x - r.x, k, s, s / 2);
    lemma_axis_fraction(p.y - r.y, j, s, s / 2);
    assert(spec_frac_rem(p.x - r.x, sp) == (s / 2) * SCALE);
    assert(2 * ((s / 2) * (SCALE as int)) == sp) by (nonlinear_arith)
        requires
            s % 2 == 0 && s >= 2 && sp == s * 65536,
    ;
    assert(spec_fit2(p, r, sp) == 2 * sp);
    assert(2 * sp > sp);
    assert(2 * (s * (SCALE as int)) == 2 * s * (SCALE as int)) by (nonlinear_arith);
}

/// A stone offset from the lattice by a tenth of the spacing in both
/// directions still fits well — a fit error of one fifth — and is assigned
/// the nearest lattice coordinates.
pub proof fn lemma_verdict_tenth_offset(p: Point, r: Point, s: int, k: int, j: int)
    requires
        10 <= s,
        s % 10 == 0,
        s * SCALE <= EST_CAP,
        p.x as int == r.x + k * s + s / 10,
        p.y as int == r.y + j * s + s / 10,
        0 <= k < MAX_LATTICE_COORD as int,
        0 <= j < MAX_LATTICE_COORD as int,
    ensures
        spec_verdict(p, r, (s * SCALE) as int) == Some((k, j)),
        5 * spec_fit2(p, r, (s * SCALE) as int) == 2 * (s * SCALE),
{
    let sp = s * (SCALE as int);
    lemma_axis_fraction(p.x - r.x, k, s, s / 10);
    lemma_axis_fraction(p.y - r.y, j, s, s / 10);
    assert(spec_frac_rem(p.x - r.x, sp) == (s / 10) * SCALE);
    assert(10 * ((s / 10) * (SCALE as int)) == sp) by (nonlinear_arith)
        requires
            s % 10 == 0 && s >= 10 && sp == s * 65536,
    ;
    let rx = (s / 10) * (SCALE as int);
    assert(int_abs(sp - 2 * rx) == sp - 2 * rx);
    assert(5 * spec_fit2(p, r, sp) == 2 * sp) by (nonlinear_arith)
        requires
            spec_fit2(p, r, sp) == 2 * sp - 2 * (sp - 2 * rx) && 10 * rx == sp,
    ;
    assert(spec_fit2(p, r, sp) <= sp) by (nonlinear_arith)
        requires
            5 * spec_fit2(p, r, sp) == 2 * sp && sp >= 1,
    ;
}

/// One axis of an off-lattice judgment: an offset of `k` spacings and a
/// positive fraction `f` under half a spacing is not far, leaves the
/// remainder `f`, and rounds down to `k`.
proof fn lemma_axis_fraction(d: int, k: int, s: int, f: int)
    requires
        1 <= s,
        0 < f,
        2 * f <= s,
        d == k * s + f,
        0 <= k < MAX_LATTICE_COORD as int,
    ensures
        !spec_far(d, s * SCALE),
        spec_frac_rem(d, s * SCALE) == f * SCALE,
        2 * f < s ==> spec_round_coord(d, s * SCALE) == k,
{
    let sp = s * (SCALE as int);
    assert(sp >= 65536);
    assert(d >= 0 && int_abs(d) == d) by (nonlinear_arith)
        requires
            d == k * s + f && k >= 0 && s >= 1 && f > 0,
    ;
    assert(d * SCALE == k * sp + f * SCALE) by (nonlinear_arith)
        requires
            d == k * s + f && sp == s * 65536,
    ;
    assert(0 <= f * SCALE < sp) by (nonlinear_arith)
        requires
            0 < f && 2 * f <= s && sp == s * 65536,
    ;
    vstd::arithmetic::div_mod::lemma_fundamental_div_mod_converse_mod(
        d * SCALE,
        sp,
        k,
        f * SCALE,
    );
    assert(d * SCALE <= 20 * sp) by (nonlinear_arith)
        requires
            d * SCALE == k * sp + f * SCALE,
            k < 20,
            0 <= f * SCALE < sp,
            sp >= 1,
    ;
    if 2 * f < s {
        assert(2 * d * SCALE + sp == k * (2 * sp) + (2 * f * SCALE + sp)) by (nonlinear_arith)
            requires
                d * SCALE == k * sp + f * SCALE,
        ;
        assert(0 <= 2 * f * SCALE + sp < 2 * sp) by (nonlinear_arith)
            requires
                0 < f && 2 * f < s && sp == s * 65536,
        ;
        vstd::arithmetic::div_mod::lemma_fundamental_div_mod_converse_div(
            2 * d * SCALE + sp,
            2 * sp,
            k,
            2 * f * SCALE + sp,
        );
    }
}

/// Rejection of far points: a stone lying more than twenty spacings from
/// the reference along either axis is assigned no lattice point; and if no
/// other stone shares its center, its center appears nowhere in the board.
pub proof fn lemma_far_point_rejected(
    centers: Seq<Point>,
    ri: int,
    sp: int,
    m: BoardMap,
    i: int,
)
    requires
        assigned_ok(centers, ri, sp, m),
        0 <= ri < centers.len(),
        0 <= i < centers.len(),
        i != ri,
        spec_far(centers[i].x - centers[ri].x, sp) || spec_far(centers[i].y - centers[ri].y, sp),
    ensures
        forall|k: (int, int)| !maps_to(centers, ri, sp, i, k),
        (forall|j: int| 0 <= j < centers.len() && j != i ==> #[trigger] centers[j] != centers[i])
            ==> forall|a: int|
            0 <= a < m.entries@.len() ==> (#[trigger] m.entries@[a]).1 != centers[i],
{
    assert(spec_verdict(centers[i], centers[ri], sp) is None);
    if forall|j: int| 0 <= j < centers.len() && j != i ==> #[trigger] centers[j] != centers[i] {
        assert forall|a: int| 0 <= a < m.entries@.len() implies (#[trigger] m.entries@[a]).1
            != centers[i] by {
            if kv(m.entries@[a].0) == (0int, 0int) {
                assert(m.entries@[a].1 == centers[ri]);
                assert(centers[ri] != centers[i]);
            } else {
                let w = choose|w: int| winner_at(centers, ri, sp, m.entries@[a], w);
                assert(maps_to(centers, ri, sp, w, kv(m.entries@[a].0)));
                assert(w != i);
                assert(centers[w] != centers[i]);
            }
        }
    }
}

/// Lattice snapping: when every stone sits exactly on the lattice of the
/// reference stone — distinct whole offsets of at most twenty spacings —
/// the board holds exactly those lattice points, each carrying the center
/// of its stone, and (0, 0) carrying the reference center.
pub proof fn lemma_lattice_snapping(
    centers: Seq<Point>,
    ri: int,
    s: int,
    m: BoardMap,
    coords: Seq<(int, int)>,
)
    requires
        assigned_ok(centers, ri, (s * SCALE) as int, m),
        0 <= ri < centers.len(),
        1 <= s,
        s * SCALE <= EST_CAP,
        coords.len() == centers.len(),
        coords[ri] == (0int, 0int),
        forall|i: int|
            0 <= i < coords.len() ==> int_abs((#[trigger] coords[i]).0) <= MAX_LATTICE_COORD as int
                && int_abs(coords[i].1) <= MAX_LATTICE_COORD as int,
        forall|i: int|
            0 <= i < centers.len() ==> (#[trigger] centers[i]).x as int == centers[ri].x
                + coords[i].0 * s && centers[i].y as int == centers[ri].y + coords[i].1 * s,
        forall|i: int, j: int|
            0 <= i < j < coords.len() ==> #[trigger] coords[i] != #[trigger] coords[j],
    ensures
        forall|k: (int, int)| m.spec_contains_key(k) <==> coords.contains(k),
        forall|a: int|
            0 <= a < m.entries@.len() ==> exists|i: int|
                0 <= i < coords.len() && coords[i] == kv((#[trigger] m.entries@[a]).0)
                    && m.entries@[a].1 == centers[i],
{
    let sp = (s * SCALE) as int;
    assert forall|i: int| 0 <= i < centers.len() && i != ri implies maps_to(
        centers,
        ri,
        sp,
        i,
        coords[i],
    ) by {
        lemma_verdict_on_lattice(centers[i], centers[ri], s, coords[i].0, coords[i].1);
    }
    assert forall|k: (int, int)| m.spec_contains_key(k) implies coords.contains(k) by {
        if k == (0int, 0int) {
            assert(coords[ri] == k);
        } else {
            let i = choose|i: int| maps_to(centers, ri, sp, i, k);
            lemma_verdict_on_lattice(centers[i], centers[ri], s, coords[i].0, coords[i].1);
            assert(coords[i] == k);
        }
    }
    assert forall|k: (int, int)| coords.contains(k) implies m.spec_contains_key(k) by {
        let i = choose|i: int| 0 <= i < coords.len() && coords[i] == k;
        if i == ri {
            assert(m.spec_contains_key((0int, 0int)));
        } else {
            assert(maps_to(centers, ri, sp, i, k));
        }
    }
    assert forall|a: int| 0 <= a < m.entries@.len() implies exists|i: int|
        0 <= i < coords.len() && coords[i] == kv((#[trigger] m.entries@[a]).0) && m.entries@[a].1
            == centers[i] by {
        let k = kv(m.entries@[a].0);
        if k == (0int, 0int) {
            assert(m.entries@[a].1 == centers[ri]);
            assert(coords[ri] == k);
        } else {
            let w = choose|w: int| winner_at(centers, ri, sp, m.entries@[a], w);
            assert(maps_to(centers, ri, sp, w, k));
            lemma_verdict_on_lattice(centers[w], centers[ri], s, coords[w].0, coords[w].1);
            assert(coords[w] == k);
            assert(m.entries@[a].1 == centers[w]);
        }
    }
}

} // verus!
