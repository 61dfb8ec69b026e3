//! Spacing estimation: sampling stone-center separations and refining the
//! pixel distance between adjacent lattice intersections, in fixed-point
//! arithmetic.

use vstd::prelude::*;
use vstd::arithmetic::div_mod::lemma_fundamental_div_mod;
use vstd::arithmetic::div_mod::lemma_div_is_ordered;
use vstd::arithmetic::div_mod::lemma_div_multiples_vanish;
use crate::num_ext::NumExt;
use crate::num_ext::abs_diff;
use crate::point::Point;

verus! {

/// The fixed-point scale: lengths measured in pixels are carried as
/// integers holding this many units per pixel.
pub const SCALE: i64 = 65536;

/// The largest value the spacing estimate can take: one whole image width
/// of pixels, in fixed-point units.
pub const EST_CAP: i64 = 65536 * 0xffff_ffff;

/// `a / b` rounded to the nearest integer, ties upward; meant for
/// nonnegative `a` and positive `b`.
pub open spec fn round_div(a: int, b: int) -> int {
    (2 * a + b) / (2 * b)
}

/// How many lattice units a sampled distance spans under the estimate
/// `est`: the nearest integer to `d / est`, but never less than one.
pub open spec fn k_of(d: int, est: int) -> int {
    let r = round_div(d * SCALE, est);
    if r < 1 {
        1
    } else {
        r
    }
}

/// One lattice unit as told by the distance `d`: the distance divided by
/// its span in lattice units, in fixed-point pixels.
pub open spec fn dk_of(d: int, est: int) -> int {
    round_div(d * SCALE, k_of(d, est))
}

/// The sum of the one-unit estimates of all sampled distances.
pub open spec fn sum_dk(ds: Seq<u32>, est: int) -> int
    decreases ds.len(),
{
    if ds.len() == 0 {
        0
    } else {
        sum_dk(ds.drop_last(), est) + dk_of(ds.last() as int, est)
    }
}

/// Integer division rounded toward zero, as machine division does it.
pub open spec fn trunc_div(a: int, b: int) -> int {
    if a >= 0 {
        a / b
    } else {
        -((-a) / b)
    }
}

/// The mean correction one refinement step applies to the estimate.
pub open spec fn mean_shift(ds: Seq<u32>, est: int) -> int {
    trunc_div(sum_dk(ds, est) - ds.len() * est, ds.len() as int)
}

/// The fixed-point refinement: apply the mean correction, stop when it has
/// fallen under one pixel or when the fuel runs out.
pub open spec fn spacing_iter(ds: Seq<u32>, est: int, fuel: nat) -> int
    decreases fuel,
{
    if fuel == 0 {
        est
    } else {
        let m = mean_shift(ds, est);
        if -SCALE < m < SCALE {
            est + m
        } else {
            spacing_iter(ds, est + m, (fuel - 1) as nat)
        }
    }
}

/// How many refinement steps the estimator may take before it must stop.
pub const MAX_REFINE_STEPS: u32 = 64;

/// The spacing the estimator converges to (or holds when the step cap
/// strikes), starting from `initial`.
pub open spec fn spec_spacing(ds: Seq<u32>, initial: int) -> int {
    spacing_iter(ds, initial, MAX_REFINE_STEPS as nat)
}

/// For positive divisors, the quotient of `a` below `b * c` stays below `c`.
pub proof fn lemma_div_below_pub(a: int, b: int, c: int)
    requires
        b >= 1,
        0 <= a,
        a < b * c,
    ensures
        a / b < c,
{
    lemma_div_below(a, b, c);
}

/// For positive divisors, the quotient of `a` at or above `b * c` stays at
/// or above `c`.
pub proof fn lemma_div_above_pub(a: int, b: int, c: int)
    requires
        b >= 1,
        b * c <= a,
    ensures
        c <= a / b,
{
    lemma_div_above(a, b, c);
}

/// For positive divisors, the quotient of `a` below `b * c` stays below `c`.
proof fn lemma_div_below(a: int, b: int, c: int)
    requires
        b >= 1,
        0 <= a,
        a < b * c,
    ensures
        a / b < c,
{
    lemma_fundamental_div_mod(a, b);
    assert(b * (a / b) <= a) by (nonlinear_arith)
        requires
            b >= 1,
            a == b * (a / b) + a % b,
            a % b >= 0,
    ;
    assert(a / b < c) by (nonlinear_arith)
        requires
            b >= 1,
            b * (a / b) <= a,
            a < b * c,
    ;
}

/// For positive divisors, the quotient of `a` at or above `b * c` stays at
/// or above `c`.
proof fn lemma_div_above(a: int, b: int, c: int)
    requires
        b >= 1,
        b * c <= a,
    ensures
        c <= a / b,
{
    lemma_fundamental_div_mod(a, b);
    assert(c <= a / b) by (nonlinear_arith)
        requires
            b >= 1,
            a == b * (a / b) + a % b,
            0 <= a % b < b,
            b * c <= a,
    ;
}

/// Every sampled distance contributes a one-unit estimate between one
/// fixed-point unit and the whole distance.
proof fn lemma_dk_bounds(d: int, est: int)
    requires
        1 <= d <= u32::MAX,
        1 <= est,
    ensures
        1 <= dk_of(d, est),
        dk_of(d, est) <= EST_CAP,
{
    let ds = d * (SCALE as int);
    assert(SCALE <= ds <= EST_CAP) by (nonlinear_arith)
        requires
            1 <= d <= 0xffff_ffff,
            ds == d * 65536,
    ;
    let k = k_of(d, est);
    assert(1 <= k && k <= ds) by {
        let r = round_div(ds, est);
        if r >= 1 {
            assert(2 * ds + est < (2 * est) * (ds + 1)) by (nonlinear_arith)
                requires
                    est >= 1,
                    ds >= 1,
            ;
            lemma_div_below(2 * ds + est, 2 * est, ds + 1);
        }
    }
    assert(2 * ds + k >= (2 * k) * 1) by (nonlinear_arith)
        requires
            1 <= k <= ds,
    ;
    lemma_div_above(2 * ds + k, 2 * k, 1);
    assert(2 * ds + k < (2 * k) * (ds + 1)) by (nonlinear_arith)
        requires
            1 <= k,
            1 <= ds,
    ;
    lemma_div_below(2 * ds + k, 2 * k, ds + 1);
}

/// One refinement step: computes the mean, over all sampled distances, of
/// `d / k - est` where `k` is the distance's span in lattice units.
fn mean_shift_step(distances: &Vec<u32>, est: i64) -> (m: i64)
    requires
        distances@.len() >= 1,
        forall|i: int| 0 <= i < distances@.len() ==> #[trigger] distances@[i] >= 1,
        1 <= est <= EST_CAP,
    ensures
        m == mean_shift(distances@, est as int),
        1 <= est + m <= EST_CAP,
{
    let n = distances.len();
    let mut sum: i128 = 0;
    let mut i: usize = 0;
    while i < n
        invariant
            n == distances@.len(),
            n >= 1,
            i <= n,
            forall|j: int| 0 <= j < distances@.len() ==> #[trigger] distances@[j] >= 1,
            1 <= est <= EST_CAP,
            sum == sum_dk(distances@.subrange(0, i as int), est as int),
            i <= sum <= (i as int) * (EST_CAP as int),
        decreases n - i,
    {
        let d: u32 = distances[i];
        let dfp: i64 = (d as i64) * SCALE;
        let k_raw: i64 = (2 * dfp + est) / (2 * est);
        let k: i64 = if k_raw < 1 {
            1
        } else {
            k_raw
        };
        proof {
            lemma_dk_bounds(d as int, est as int);
            assert(1 <= k && k <= dfp) by {
                let r = round_div((d as int) * (SCALE as int), est as int);
                if r >= 1 {
                    assert(2 * (dfp as int) + est < (2 * (est as int)) * ((dfp as int) + 1))
                        by (nonlinear_arith)
                        requires
                            est >= 1,
                            dfp >= 1,
                    ;
                    lemma_div_below(2 * (dfp as int) + est, 2 * (est as int), (dfp as int) + 1);
                }
            }
        }
        let dk: i64 = (2 * dfp + k) / (2 * k);
        proof {
            assert(dk == dk_of(d as int, est as int));
            assert(distances@.subrange(0, i as int + 1) =~= distances@.subrange(
                0,
                i as int,
            ).push(distances@[i as int]));
            assert(distances@.subrange(0, i as int + 1).drop_last() =~= distances@.subrange(
                0,
                i as int,
            ));
            assert((i as int) * (EST_CAP as int) + EST_CAP == (i as int + 1) * (EST_CAP as int))
                by (nonlinear_arith);
        }
        sum = sum + (dk as i128);
        i += 1;
    }
    proof {
        assert(distances@.subrange(0, n as int) =~= distances@);
    }
    let n128: i128 = n as i128;
    let est128: i128 = est as i128;
    proof {
        assert((n as int) * (est as int) <= (n as int) * (EST_CAP as int)) by (nonlinear_arith)
            requires
                1 <= est <= EST_CAP,
                n >= 1,
        ;
        assert((n as int) * (EST_CAP as int) < 0x1_0000_0000_0000_0000_0000_0000_0000i128)
            by (nonlinear_arith)
            requires
                1 <= n <= 0xffff_ffff_ffff_ffffu64,
        ;
        assert((n as int) * 1 <= (n as int) * (est as int)) by (nonlinear_arith)
            requires
                1 <= est,
                n >= 1,
        ;
    }
    let diff: i128 = sum - n128 * est128;
    let m128: i128 = if diff >= 0 {
        diff / n128
    } else {
        -((-diff) / n128)
    };
    proof {
        let ni = n as int;
        let esti = est as int;
        let sumi = sum as int;
        if diff >= 0 {
            assert(m128 == trunc_div(sumi - ni * esti, ni));
            assert(sumi - ni * esti <= ni * ((EST_CAP as int) - esti)) by (nonlinear_arith)
                requires
                    sumi <= ni * (EST_CAP as int),
            ;
            lemma_div_is_ordered(sumi - ni * esti, ni * ((EST_CAP as int) - esti), ni);
            lemma_div_multiples_vanish((EST_CAP as int) - esti, ni);
            assert((sumi - ni * esti) / ni >= 0) by {
                lemma_div_above(sumi - ni * esti, ni, 0);
            }
        } else {
            let e = ni * esti - sumi;
            assert(m128 == trunc_div(sumi - ni * esti, ni));
            assert(e <= ni * (esti - 1)) by (nonlinear_arith)
                requires
                    sumi >= ni,
                    e == ni * esti - sumi,
                    esti >= 1,
            ;
            lemma_div_is_ordered(e, ni * (esti - 1), ni);
            lemma_div_multiples_vanish(esti - 1, ni);
            assert(e / ni >= 0) by {
                lemma_div_above(e, ni, 0);
            }
        }
    }
    let m: i64 = m128 as i64;
    m
}

/// Derives one lattice unit, in fixed-point pixels, from the sampled
/// distances: each distance is divided by its nearest whole number of
/// units, and the estimate drifts by the mean error until that mean falls
/// under one pixel, or at most `MAX_REFINE_STEPS` times.
pub fn estimate_spacing(distances: &Vec<u32>, initial: i64) -> (r: i64)
    requires
        distances@.len() >= 1,
        forall|i: int| 0 <= i < distances@.len() ==> #[trigger] distances@[i] >= 1,
        1 <= initial <= EST_CAP,
    ensures
        r == spec_spacing(distances@, initial as int),
        1 <= r <= EST_CAP,
{
    let mut est: i64 = initial;
    let mut steps: u32 = 0;
    loop
        invariant_except_break
            distances@.len() >= 1,
            forall|i: int| 0 <= i < distances@.len() ==> #[trigger] distances@[i] >= 1,
            1 <= est <= EST_CAP,
            steps < MAX_REFINE_STEPS,
            spacing_iter(distances@, est as int, (MAX_REFINE_STEPS - steps) as nat)
                == spec_spacing(distances@, initial as int),
        ensures
            1 <= est <= EST_CAP,
            est == spec_spacing(distances@, initial as int),
        decreases MAX_REFINE_STEPS - steps,
    {
        let m = mean_shift_step(distances, est);
        let ghost fuel = (MAX_REFINE_STEPS - steps) as nat;
        est = est + m;
        steps += 1;
        if -SCALE < m && m < SCALE {
            proof {
                assert(spacing_iter(distances@, (est - m) as int, fuel) == est);
            }
            break ;
        }
        if steps == MAX_REFINE_STEPS {
            proof {
                assert(spacing_iter(distances@, (est - m) as int, fuel) == spacing_iter(
                    distances@,
                    est as int,
                    (fuel - 1) as nat,
                ));
                assert(spacing_iter(distances@, est as int, 0) == est);
            }
            break ;
        }
    }
    est
}

/// The horizontal and vertical separations one stone pair contributes:
/// each is kept only when it exceeds the stone size.
pub open spec fn emitted_for_pair(a: Point, b: Point, stone_size: int) -> Seq<u32> {
    let dx = abs_diff(a.x as int, b.x as int);
    let dy = abs_diff(a.y as int, b.y as int);
    (if dx * SCALE > stone_size {
        seq![dx as u32]
    } else {
        Seq::<u32>::empty()
    }) + (if dy * SCALE > stone_size {
        seq![dy as u32]
    } else {
        Seq::<u32>::empty()
    })
}

/// What the pairing policy emits for the stone at index `i`: its separation
/// from the next stone, from the stone mirrored across the list, and — for
/// the first half — from the stone half the list away.
pub open spec fn emitted_for_index(centers: Seq<Point>, stone_size: int, i: int) -> Seq<u32> {
    let n = centers.len() as int;
    emitted_for_pair(centers[i], centers[i + 1], stone_size) + emitted_for_pair(
        centers[i],
        centers[n - 1 - i],
        stone_size,
    ) + if i < n / 2 {
        emitted_for_pair(centers[i], centers[i + n / 2], stone_size)
    } else {
        Seq::<u32>::empty()
    }
}

/// All distances emitted for indices below `i`.
pub open spec fn samples_upto(centers: Seq<Point>, stone_size: int, i: int) -> Seq<u32>
    decreases i,
{
    if i <= 0 {
        Seq::<u32>::empty()
    } else {
        samples_upto(centers, stone_size, i - 1) + emitted_for_index(centers, stone_size, i - 1)
    }
}

/// The whole distance sample: every index strictly below `len - 2` paired
/// by the pairing policy, separations at or below the stone size
/// suppressed.
pub open spec fn spec_distance_samples(centers: Seq<Point>, stone_size: int) -> Seq<u32> {
    samples_upto(centers, stone_size, centers.len() - 2)
}

/// Pushes the separations of one stone pair that exceed the stone size.
fn push_pair(out: &mut Vec<u32>, a: Point, b: Point, stone_size: i64)
    requires
        0 <= stone_size,
    ensures
        final(out)@ == old(out)@ + emitted_for_pair(a, b, stone_size as int),
{
    let ghost o0 = out@;
    let dx: u32 = a.x.diff(b.x);
    let dy: u32 = a.y.diff(b.y);
    if (dx as i64) * SCALE > stone_size {
        out.push(dx);
    }
    if (dy as i64) * SCALE > stone_size {
        out.push(dy);
    }
    proof {
        assert(final(out)@ =~= o0 + emitted_for_pair(a, b, stone_size as int));
    }
}

/// Samples stone-center separations by the pairing policy: each stone
/// against its successor, against its mirror across the list, and — in the
/// first half — against the stone half the list away; separations at or
/// below the stone size are suppressed.
pub fn sample_distances(centers: &Vec<Point>, stone_size: i64) -> (r: Vec<u32>)
    requires
        centers@.len() >= 2,
        0 <= stone_size,
    ensures
        r@ == spec_distance_samples(centers@, stone_size as int),
{
    let n = centers.len();
    let mut out: Vec<u32> = Vec::new();
    let mut i: usize = 0;
    while i + 2 < n
        invariant
            n == centers@.len(),
            n >= 2,
            i <= n - 2,
            0 <= stone_size,
            out@ == samples_upto(centers@, stone_size as int, i as int),
        decreases n - i,
    {
        push_pair(&mut out, centers[i], centers[i + 1], stone_size);
        push_pair(&mut out, centers[i], centers[n - 1 - i], stone_size);
        if i < n / 2 {
            push_pair(&mut out, centers[i], centers[i + n / 2], stone_size);
        }
        i += 1;
        proof {
            assert(out@ =~= samples_upto(centers@, stone_size as int, i as int));
        }
    }
    out
}

/// Every emitted distance exceeds the stone size, so with a nonnegative
/// stone size every emitted distance is at least one pixel.
pub proof fn lemma_samples_positive(centers: Seq<Point>, stone_size: int, i: int)
    requires
        0 <= stone_size,
        i <= centers.len() - 2,
    ensures
        forall|j: int|
            0 <= j < samples_upto(centers, stone_size, i).len()
                ==> #[trigger] samples_upto(centers, stone_size, i)[j] >= 1,
    decreases i,
{
    if i > 0 {
        lemma_samples_positive(centers, stone_size, i - 1);
        let pre = samples_upto(centers, stone_size, i - 1);
        let cur = samples_upto(centers, stone_size, i);
        assert forall|j: int| 0 <= j < cur.len() implies #[trigger] cur[j] >= 1 by {
            if j < pre.len() {
                assert(cur[j] == pre[j]);
            } else {
                let e = emitted_for_index(centers, stone_size, i - 1);
                assert(cur[j] == e[j - pre.len()]);
                assert forall|d: u32| #[trigger] ((d as int) * SCALE) > stone_size implies d
                    >= 1 by {
                    if d == 0 {
                        assert((d as int) * SCALE == 0) by (nonlinear_arith)
                            requires
                                d == 0,
                        ;
                    }
                }
            }
        }
    }
}

/// On a sample of exact whole multiples of the spacing `s`, one refinement
/// step from `s` itself corrects nothing: every distance, divided by its
/// whole number of units, gives back exactly `s`.
proof fn lemma_dk_exact(d: int, s: int, k: int)
    requires
        1 <= s,
        1 <= k,
        d == k * s,
    ensures
        dk_of(d, s * SCALE) == s * SCALE,
{
    let sp = s * (SCALE as int);
    assert(sp >= 1);
    assert(2 * (d * SCALE) + sp == k * (2 * sp) + sp) by (nonlinear_arith)
        requires
            d == k * s && sp == s * 65536,
    ;
    vstd::arithmetic::div_mod::lemma_fundamental_div_mod_converse_div(
        2 * (d * SCALE) + sp,
        2 * sp,
        k,
        sp,
    );
    assert(round_div(d * SCALE, sp) == k);
    assert(k_of(d, sp) == k);
    assert(2 * (d * SCALE) + k == sp * (2 * k) + k) by (nonlinear_arith)
        requires
            d == k * s && sp == s * 65536,
    ;
    vstd::arithmetic::div_mod::lemma_fundamental_div_mod_converse_div(
        2 * (d * SCALE) + k,
        2 * k,
        sp,
        k,
    );
    assert(round_div(d * SCALE, k) == sp);
}

/// The sum of one-unit estimates over exact multiples of `s`, refined at
/// `s` itself, is the sample count times `s`.
proof fn lemma_sum_dk_exact(ds: Seq<u32>, s: int, ks: Seq<int>)
    requires
        1 <= s,
        ks.len() == ds.len(),
        forall|i: int| 0 <= i < ds.len() ==> 1 <= #[trigger] ks[i] && ds[i] == ks[i] * s,
    ensures
        sum_dk(ds, s * SCALE) == ds.len() * (s * SCALE),
    decreases ds.len(),
{
    if ds.len() > 0 {
        assert forall|i: int| 0 <= i < ds.drop_last().len() implies 1 <= #[trigger] ks.drop_last()[i]
            && ds.drop_last()[i] == ks.drop_last()[i] * s by {
            assert(ds.drop_last()[i] == ds[i] && ks.drop_last()[i] == ks[i]);
        }
        lemma_sum_dk_exact(ds.drop_last(), s, ks.drop_last());
        assert(ds[ds.len() - 1] == ds.last());
        lemma_dk_exact(ds.last() as int, s, ks[ds.len() - 1]);
        assert((ds.len() - 1) * (s * SCALE) + s * SCALE == ds.len() * (s * SCALE))
            by (nonlinear_arith);
    }
}

/// Spacing convergence on exact samples: when every sampled distance is a
/// whole multiple `ks[i] * s` of the spacing `s`, the estimator started at
/// `s` stops at once and returns `s` unchanged.
pub proof fn lemma_spacing_fixed_point(ds: Seq<u32>, s: int, ks: Seq<int>)
    requires
        1 <= s,
        s * SCALE <= EST_CAP,
        ds.len() >= 1,
        ks.len() == ds.len(),
        forall|i: int| 0 <= i < ds.len() ==> 1 <= #[trigger] ks[i] && ds[i] == ks[i] * s,
    ensures
        spec_spacing(ds, s * SCALE) == s * SCALE,
        mean_shift(ds, s * SCALE) == 0,
{
    let sp = s * (SCALE as int);
    lemma_sum_dk_exact(ds, s, ks);
    assert(sum_dk(ds, sp) - ds.len() * sp == 0);
    assert(trunc_div(0, ds.len() as int) == 0) by {
        vstd::arithmetic::div_mod::lemma_div_of0(ds.len() as int);
    }
    assert(mean_shift(ds, sp) == 0);
    assert(spacing_iter(ds, sp, MAX_REFINE_STEPS as nat) == sp + 0);
}

} // verus!
