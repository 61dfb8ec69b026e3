//! The stone filter: medians of blob extents and the tolerance window
//! that separates stones from letters, shadows and board edges.

use vstd::prelude::*;
use vstd::multiset::Multiset;
use vstd::relations::sorted_by;
use vstd::relations::total_ordering;
use vstd::seq_lib::lemma_sorted_unique;
use crate::blob::BlackStone;
use crate::extract::extraction_ok;
use crate::extract::find_black_objects;
use crate::extract::keeps_noise_filter;
use crate::mask::MaskGrid;
use crate::mask::build_mask;
use crate::raster::PixelImage;
use crate::spacing::EST_CAP;
use crate::spacing::SCALE;

verus! {

/// Fewer accepted stones than this and no lattice can be fitted.
pub const MIN_BLACK_STONES_ON_BOARD: usize = 6;

/// Ascending order on widths and heights.
pub open spec fn u32_le() -> spec_fn(u32, u32) -> bool {
    |a: u32, b: u32| a <= b
}

/// `<=` totally orders the unsigned 32-bit integers.
pub proof fn lemma_u32_total_ordering()
    ensures
        total_ordering(u32_le()),
{
}

/// The median of a list of measurements: the value at index `len / 2` of
/// the ascending sort, so ties break toward the upper index.
pub open spec fn median_of(s: Seq<u32>) -> u32 {
    s.sort_by(u32_le())[s.len() as int / 2]
}

/// Sorts measurements ascending by repeatedly moving a least remaining
/// element across; the output holds exactly the input values.
pub fn sort_ascending(input: Vec<u32>) -> (out: Vec<u32>)
    ensures
        sorted_by(out@, u32_le()),
        out@.to_multiset() == input@.to_multiset(),
        out@.len() == input@.len(),
{
    broadcast use vstd::seq_lib::group_to_multiset_ensures;
    broadcast use vstd::multiset::group_multiset_axioms;

    let mut rest = input;
    let mut out: Vec<u32> = Vec::new();
    while rest.len() > 0
        invariant
            out@.to_multiset().add(rest@.to_multiset()) == input@.to_multiset(),
            out@.len() + rest@.len() == input@.len(),
            sorted_by(out@, u32_le()),
            forall|a: int, b: int|
                0 <= a < out@.len() && 0 <= b < rest@.len() ==> #[trigger] out@[a]
                    <= #[trigger] rest@[b],
        decreases rest@.len(),
    {
        broadcast use vstd::seq_lib::group_to_multiset_ensures;
        broadcast use vstd::multiset::group_multiset_axioms;

        let mut mi: usize = 0;
        let mut k: usize = 1;
        while k < rest.len()
            invariant
                rest@.len() > 0,
                mi < k <= rest@.len(),
                forall|j: int| 0 <= j < k ==> rest@[mi as int] <= #[trigger] rest@[j],
            decreases rest@.len() - k,
        {
            if rest[k] < rest[mi] {
                mi = k;
            }
            k += 1;
        }
        let ghost r0 = rest@;
        let ghost o0 = out@;
        let v = rest.remove(mi);
        out.push(v);
        proof {
            assert(r0.to_multiset().count(v) > 0) by {
                assert(r0.contains(v));
            }
            assert(rest@.to_multiset() =~= r0.to_multiset().remove(v));
            assert(out@.to_multiset() =~= o0.to_multiset().insert(v));
            assert(out@.to_multiset().add(rest@.to_multiset()) =~= o0.to_multiset().add(
                r0.to_multiset(),
            ));
            assert(sorted_by(out@, u32_le())) by {
                assert forall|a: int, b: int| 0 <= a < b < out@.len() implies u32_le()(
                    out@[a],
                    out@[b],
                ) by {
                    if b < o0.len() {
                        assert(u32_le()(o0[a], o0[b]));
                    } else {
                        assert(out@[b] == v && v == r0[mi as int]);
                    }
                }
            }
            assert forall|a: int, b: int|
                0 <= a < out@.len() && 0 <= b < rest@.len() implies #[trigger] out@[a]
                <= #[trigger] rest@[b] by {
                assert(rest@[b] == if b < mi {
                    r0[b]
                } else {
                    r0[b + 1]
                });
                if a < o0.len() {
                    assert(o0[a] <= rest@[b]);
                } else {
                    assert(out@[a] == r0[mi as int]);
                }
            }
        }
    }
    proof {
        assert(rest@.to_multiset() =~= Multiset::<u32>::empty());
        assert(out@.to_multiset() =~= input@.to_multiset());
    }
    out
}

/// The median measurement: sort ascending and take the value at `len / 2`.
pub fn median(values: Vec<u32>) -> (m: u32)
    requires
        values@.len() >= 1,
    ensures
        m == median_of(values@),
        values@.contains(m),
{
    broadcast use vstd::seq_lib::group_to_multiset_ensures;
    broadcast use vstd::multiset::group_multiset_axioms;

    let ghost v0 = values@;
    let sorted = sort_ascending(values);
    proof {
        lemma_u32_total_ordering();
        v0.lemma_sort_by_ensures(u32_le());
        lemma_sorted_unique(sorted@, v0.sort_by(u32_le()), u32_le());
    }
    let n = sorted.len();
    let m = sorted[n / 2];
    proof {
        assert(sorted@.contains(m));
        assert(sorted@.to_multiset().count(m) > 0);
        assert(v0.contains(m));
    }
    m
}

/// The widths of a list of blobs.
pub open spec fn widths_of(blobs: Seq<BlackStone>) -> Seq<u32> {
    Seq::new(blobs.len(), |i: int| blobs[i].spec_width() as u32)
}

/// The heights of a list of blobs.
pub open spec fn heights_of(blobs: Seq<BlackStone>) -> Seq<u32> {
    Seq::new(blobs.len(), |i: int| blobs[i].spec_height() as u32)
}

/// Whether a blob's extents land inside the tolerance window around the
/// median stone size: strictly between 0.66 and 1.5 times each median.
pub open spec fn accepts_stone(b: BlackStone, w_med: u32, h_med: u32) -> bool {
    &&& 100 * b.spec_width() < 150 * (w_med as int)
    &&& 100 * b.spec_width() > 66 * (w_med as int)
    &&& 100 * b.spec_height() < 150 * (h_med as int)
    &&& 100 * b.spec_height() > 66 * (h_med as int)
}

/// The characteristic stone size, in fixed-point pixels: the average of the
/// two medians.
pub open spec fn spec_stone_size(w_med: u32, h_med: u32) -> int {
    ((w_med + h_med) * SCALE) / 2
}

/// The mask `m` labels exactly the pixels of `img` that the classifier
/// accepts.
pub open spec fn mask_matches(img: PixelImage, m: MaskGrid) -> bool {
    &&& m.wf()
    &&& m.width == img.width
    &&& m.height == img.height
    &&& forall|x: int, y: int|
        0 <= x < img.width && 0 <= y < img.height ==> #[trigger] m.cell(x, y)
            == img.spec_stone_at(x, y)
}

/// The whole segmentation stage: `stones` is what is left of the blob
/// decomposition of the classifier mask of `img` after the noise filter and
/// the median-size filter, and `stone_size` is the fixed-point average of
/// the median width and median height of the noise-filtered blobs.
pub open spec fn stones_found(img: PixelImage, stone_size: int, stones: Seq<BlackStone>) -> bool {
    exists|mk: MaskGrid, seeds: Seq<(int, int)>, blobs: Seq<BlackStone>|
        {
            &&& #[trigger] mask_matches(img, mk)
            &&& #[trigger] extraction_ok(mk, seeds, blobs)
            &&& blobs.filter(|b: BlackStone| keeps_noise_filter(b)).len() > 0
            &&& {
                let objs = blobs.filter(|b: BlackStone| keeps_noise_filter(b));
                let w_med = median_of(widths_of(objs));
                let h_med = median_of(heights_of(objs));
                &&& stones == objs.filter(|b: BlackStone| accepts_stone(b, w_med, h_med))
                &&& stone_size == spec_stone_size(w_med, h_med)
            }
        }
}

/// No candidate region survives: every blob of the classifier mask of `img`
/// falls to the noise filter.
pub open spec fn no_stones_found(img: PixelImage) -> bool {
    exists|mk: MaskGrid, seeds: Seq<(int, int)>, blobs: Seq<BlackStone>|
        {
            &&& #[trigger] mask_matches(img, mk)
            &&& #[trigger] extraction_ok(mk, seeds, blobs)
            &&& blobs.filter(|b: BlackStone| keeps_noise_filter(b)).len() == 0
        }
}

/// Segments the image into candidate stones. Classifies every pixel, cuts
/// the mask into blobs, drops noise, then keeps only blobs whose extents lie
/// inside the tolerance window around the median width and height. Returns
/// the characteristic stone size (fixed-point pixels) with the kept blobs,
/// or `None` when no blob survives the noise filter.
pub fn find_black_stones(img: &PixelImage) -> (r: Option<(i64, Vec<BlackStone>)>)
    requires
        img.wf(),
    ensures
        match r {
            Some((stone_size, stones)) => {
                &&& stones_found(*img, stone_size as int, stones@)
                &&& forall|i: int| 0 <= i < stones@.len() ==> (#[trigger] stones@[i]).wf()
                &&& 6 * SCALE <= stone_size <= EST_CAP
            },
            None => no_stones_found(*img),
        },
{
    let n = img.data.len();
    let mask = build_mask(img);
    let ghost mk = mask;
    let objects = find_black_objects(mask);
    let ghost picked = choose|seeds: Seq<(int, int)>, blobs: Seq<BlackStone>|
        #[trigger] extraction_ok(mk, seeds, blobs) && objects@ == blobs.filter(
            |b: BlackStone| keeps_noise_filter(b),
        );
    if objects.len() == 0 {
        proof {
            assert(no_stones_found(*img)) by {
                assert(mask_matches(*img, mk));
                assert(extraction_ok(mk, picked.0, picked.1));
            }
        }
        return None;
    }
    proof {
        assert forall|k: int| 0 <= k < objects@.len() implies (#[trigger] objects@[k]).wf()
            && keeps_noise_filter(objects@[k]) by {
            let blobs = picked.1;
            blobs.lemma_filter_pred(|b: BlackStone| keeps_noise_filter(b), k);
        }
    }
    let count = objects.len();
    let mut widths: Vec<u32> = Vec::new();
    let mut heights: Vec<u32> = Vec::new();
    let mut i: usize = 0;
    while i < count
        invariant
            count == objects@.len(),
            i <= count,
            forall|k: int|
                0 <= k < objects@.len() ==> (#[trigger] objects@[k]).wf() && keeps_noise_filter(
                    objects@[k],
                ),
            widths@.len() == i,
            heights@.len() == i,
            forall|k: int| 0 <= k < i ==> #[trigger] widths@[k] == widths_of(objects@)[k],
            forall|k: int| 0 <= k < i ==> #[trigger] heights@[k] == heights_of(objects@)[k],
        decreases count - i,
    {
        let b = &objects[i];
        widths.push(b.width());
        heights.push(b.height());
        i += 1;
    }
    proof {
        assert(widths@ =~= widths_of(objects@));
        assert(heights@ =~= heights_of(objects@));
    }
    let w_med = median(widths);
    let h_med = median(heights);
    let stone_size: i64 = ((w_med as i64) + (h_med as i64)) * SCALE / 2;
    let mut stones: Vec<BlackStone> = Vec::new();
    let mut j: usize = 0;
    while j < count
        invariant
            count == objects@.len(),
            j <= count,
            forall|k: int| 0 <= k < objects@.len() ==> (#[trigger] objects@[k]).wf(),
            stones@ == objects@.subrange(0, j as int).filter(
                |b: BlackStone| accepts_stone(b, w_med, h_med),
            ),
        decreases count - j,
    {
        let b = &objects[j];
        let bw: u64 = b.width() as u64;
        let bh: u64 = b.height() as u64;
        let keep = 100 * bw < 150 * (w_med as u64) && 100 * bw > 66 * (w_med as u64) && 100 * bh
            < 150 * (h_med as u64) && 100 * bh > 66 * (h_med as u64);
        if keep {
            stones.push(*b);
        }
        proof {
            let pred = |b2: BlackStone| accepts_stone(b2, w_med, h_med);
            let pre = objects@.subrange(0, j as int);
            let one = seq![objects@[j as int]];
            assert(objects@.subrange(0, j as int + 1) =~= pre + one);
            Seq::filter_distributes_over_add(pre, one, pred);
            crate::extract::lemma_filter_one_blob(one, pred);
            assert(stones@ =~= (pre + one).filter(pred));
        }
        j += 1;
    }
    proof {
        assert(objects@.subrange(0, count as int) =~= objects@);
        assert forall|idx: int| 0 <= idx < stones@.len() implies (#[trigger] stones@[idx]).wf() by {
            assert(stones@.contains(stones@[idx]));
            objects@.lemma_filter_contains_rev(
                |b2: BlackStone| accepts_stone(b2, w_med, h_med),
                stones@[idx],
            );
            let k2 = choose|k2: int| 0 <= k2 < objects@.len() && objects@[k2] == stones@[idx];
            assert(objects@[k2].wf());
        }
        assert(6 <= w_med) by {
            assert(widths@.contains(w_med));
            let k2 = choose|k2: int| 0 <= k2 < widths@.len() && widths@[k2] == w_med;
            assert(widths@[k2] == widths_of(objects@)[k2]);
            assert(keeps_noise_filter(objects@[k2]));
        }
        assert(6 <= h_med) by {
            assert(heights@.contains(h_med));
            let k2 = choose|k2: int| 0 <= k2 < heights@.len() && heights@[k2] == h_med;
            assert(heights@[k2] == heights_of(objects@)[k2]);
            assert(keeps_noise_filter(objects@[k2]));
        }
        assert(stones_found(*img, stone_size as int, stones@)) by {
            assert(mask_matches(*img, mk));
            assert(extraction_ok(mk, picked.0, picked.1));
            let objs = picked.1.filter(|b: BlackStone| keeps_noise_filter(b));
            assert(objs == objects@);
            assert(w_med == median_of(widths_of(objs)));
            assert(h_med == median_of(heights_of(objs)));
            crate::extract::lemma_filter_congruent(
                objects@,
                |b2: BlackStone| accepts_stone(b2, w_med, h_med),
                |b2: BlackStone|
                    accepts_stone(
                        b2,
                        median_of(widths_of(objs)),
                        median_of(heights_of(objs)),
                    ),
            );
        }
    }
    Some((stone_size, stones))
}

/// Every measurement scaled by the common factor `c`.
pub open spec fn scale_seq(s: Seq<u32>, c: int) -> Seq<u32> {
    Seq::new(s.len(), |k: int| (c * s[k]) as u32)
}

/// Scaling two lists with equal contents yields lists with equal contents.
proof fn lemma_scale_multiset(s1: Seq<u32>, s2: Seq<u32>, c: int)
    requires
        s1.to_multiset() == s2.to_multiset(),
        1 <= c,
    ensures
        scale_seq(s1, c).to_multiset() == scale_seq(s2, c).to_multiset(),
    decreases s1.len(),
{
    broadcast use vstd::seq_lib::group_to_multiset_ensures;
    broadcast use vstd::multiset::group_multiset_axioms;

    if s1.len() == 0 {
        assert(s1.to_multiset().len() == s1.len());
        assert(s2.to_multiset().len() == s2.len());
        assert(s2.len() == 0);
        assert(scale_seq(s1, c) =~= scale_seq(s2, c));
    } else {
        let e = s1.last();
        let ce = (c * e) as u32;
        assert(s1.contains(e));
        assert(s1.to_multiset().count(e) > 0);
        assert(s2.to_multiset().count(e) > 0);
        assert(s2.contains(e));
        let idx = choose|idx: int| 0 <= idx < s2.len() && s2[idx] == e;
        let s1p = s1.drop_last();
        let s2p = s2.remove(idx);
        assert(s1p =~= s1.remove(s1.len() - 1));
        assert(s1p.to_multiset() =~= s1.to_multiset().remove(e));
        assert(s2p.to_multiset() =~= s2.to_multiset().remove(e));
        lemma_scale_multiset(s1p, s2p, c);
        assert(scale_seq(s1, c) =~= scale_seq(s1p, c).push(ce));
        assert(scale_seq(s1, c).to_multiset() =~= scale_seq(s1p, c).to_multiset().insert(ce));
        assert(scale_seq(s2, c).remove(idx) =~= scale_seq(s2p, c));
        assert(scale_seq(s2, c).remove(idx).to_multiset() =~= scale_seq(
            s2,
            c,
        ).to_multiset().remove(scale_seq(s2, c)[idx]));
        assert(scale_seq(s2, c)[idx] == ce);
        assert(0 <= idx < scale_seq(s2, c).len() && scale_seq(s2, c)[idx] == ce);
        assert(scale_seq(s2, c).contains(ce));
        assert(scale_seq(s2, c).to_multiset().count(ce) > 0);
        assert(scale_seq(s2, c).to_multiset() =~= scale_seq(s2p, c).to_multiset().insert(ce))
            by {
            let x = scale_seq(s2, c).to_multiset();
            let y = scale_seq(s2p, c).to_multiset();
            assert(x.remove(ce) == y);
            assert forall|u: u32| x.count(u) == #[trigger] y.insert(ce).count(u) by {
                if u == ce {
                    assert(x.remove(ce).count(u) == x.count(u) - 1);
                } else {
                    assert(x.remove(ce).count(u) == x.count(u));
                }
            }
            assert(x =~= y.insert(ce));
        }
        assert(scale_seq(s1, c).to_multiset() =~= scale_seq(s2, c).to_multiset());
    }
}

/// Scaling every measurement by a common positive factor scales the median
/// by the same factor.
pub proof fn lemma_median_scales(ws: Seq<u32>, c: int)
    requires
        ws.len() >= 1,
        1 <= c,
        forall|k: int| 0 <= k < ws.len() ==> c * ws[k] <= u32::MAX,
    ensures
        median_of(scale_seq(ws, c)) == c * median_of(ws),
{
    broadcast use vstd::seq_lib::group_to_multiset_ensures;
    broadcast use vstd::multiset::group_multiset_axioms;

    lemma_u32_total_ordering();
    let t = ws.sort_by(u32_le());
    ws.lemma_sort_by_ensures(u32_le());
    assert(t.to_multiset().len() == t.len());
    assert(ws.to_multiset().len() == ws.len());
    assert(t.len() == ws.len());
    assert forall|k: int| 0 <= k < t.len() implies c * t[k] <= u32::MAX by {
        assert(t.contains(t[k]));
        assert(t.to_multiset().count(t[k]) > 0);
        assert(ws.to_multiset().count(t[k]) > 0);
        assert(ws.contains(t[k]));
        let k2 = choose|k2: int| 0 <= k2 < ws.len() && ws[k2] == t[k];
        assert(c * ws[k2] <= u32::MAX);
    }
    let t2 = scale_seq(t, c);
    assert(sorted_by(t2, u32_le())) by {
        assert forall|a: int, b: int| 0 <= a < b < t2.len() implies u32_le()(t2[a], t2[b]) by {
            assert(u32_le()(t[a], t[b]));
            assert(c * t[a] <= c * t[b]) by (nonlinear_arith)
                requires
                    t[a] <= t[b],
                    c >= 1,
            ;
        }
    }
    lemma_scale_multiset(ws, t, c);
    let ws2 = scale_seq(ws, c);
    ws2.lemma_sort_by_ensures(u32_le());
    assert(ws2.sort_by(u32_le()).to_multiset() == t2.to_multiset());
    lemma_sorted_unique(ws2.sort_by(u32_le()), t2, u32_le());
    let mid = ws.len() as int / 2;
    assert(ws2.len() == ws.len());
    assert(ws2.sort_by(u32_le()) =~= t2);
    assert(t2[mid] == (c * t[mid]) as u32);
    assert(c * t[mid] <= u32::MAX);
    assert(median_of(ws) == t[mid]);
    assert(median_of(ws2) == t2[mid]);
}

/// Stone-filter monotonicity: scaling the dimensions of every blob by one
/// common positive factor leaves each blob's acceptance against the scaled
/// medians exactly as it was against the original medians — the accepted
/// subset is the same.
pub proof fn lemma_stone_filter_monotone(
    blobs: Seq<BlackStone>,
    scaled: Seq<BlackStone>,
    c: int,
    i: int,
)
    requires
        1 <= c,
        blobs.len() == scaled.len(),
        blobs.len() >= 1,
        forall|k: int| 0 <= k < blobs.len() ==> (#[trigger] blobs[k]).wf(),
        forall|k: int| 0 <= k < scaled.len() ==> (#[trigger] scaled[k]).wf(),
        forall|k: int|
            0 <= k < blobs.len() ==> (#[trigger] scaled[k]).spec_width() == c
                * blobs[k].spec_width() && scaled[k].spec_height() == c * blobs[k].spec_height(),
        0 <= i < blobs.len(),
    ensures
        accepts_stone(
            scaled[i],
            median_of(widths_of(scaled)),
            median_of(heights_of(scaled)),
        ) == accepts_stone(blobs[i], median_of(widths_of(blobs)), median_of(heights_of(blobs))),
{
    let ws = widths_of(blobs);
    let hs = heights_of(blobs);
    assert forall|k: int| 0 <= k < ws.len() implies c * ws[k] <= u32::MAX by {
        assert(scaled[k].spec_width() <= u32::MAX);
    }
    assert forall|k: int| 0 <= k < hs.len() implies c * hs[k] <= u32::MAX by {
        assert(scaled[k].spec_height() <= u32::MAX);
    }
    assert(widths_of(scaled) =~= scale_seq(ws, c));
    assert(heights_of(scaled) =~= scale_seq(hs, c));
    lemma_median_scales(ws, c);
    lemma_median_scales(hs, c);
    let wm = median_of(ws);
    let hm = median_of(hs);
    let w = blobs[i].spec_width();
    let h = blobs[i].spec_height();
    assert(scaled[i].spec_width() == c * w && scaled[i].spec_height() == c * h);
    assert((100 * (c * w) < 150 * (c * wm)) == (100 * w < 150 * (wm as int))) by (nonlinear_arith)
        requires
            c >= 1,
    ;
    assert((100 * (c * w) > 66 * (c * wm)) == (100 * w > 66 * (wm as int))) by (nonlinear_arith)
        requires
            c >= 1,
    ;
    assert((100 * (c * h) < 150 * (c * hm)) == (100 * h < 150 * (hm as int))) by (nonlinear_arith)
        requires
            c >= 1,
    ;
    assert((100 * (c * h) > 66 * (c * hm)) == (100 * h > 66 * (hm as int))) by (nonlinear_arith)
        requires
            c >= 1,
    ;
}

} // verus!
