//! The pipeline: from a raster of pixels to the board map, or to the
//! judgment that no board can be made out.

use vstd::prelude::*;
use crate::blob::BlackStone;
use crate::lattice::BoardMap;
use crate::lattice::MAX_STONES;
use crate::lattice::assign_lattice;
use crate::lattice::assigned_ok;
use crate::lattice::is_best_ref;
use crate::lattice::pick_reference;
use crate::point::Point;
use crate::raster::PixelImage;
use crate::spacing::estimate_spacing;
use crate::spacing::lemma_samples_positive;
use crate::spacing::sample_distances;
use crate::spacing::spec_distance_samples;
use crate::spacing::spec_spacing;
use crate::stones::MIN_BLACK_STONES_ON_BOARD;
use crate::stones::find_black_stones;
use crate::stones::no_stones_found;
use crate::stones::stones_found;

verus! {

/// The centers of a list of stones.
pub open spec fn centers_of(stones: Seq<BlackStone>) -> Seq<Point> {
    Seq::new(stones.len(), |i: int| stones[i].spec_center())
}

/// `m` is the board that the pipeline reconstructs from `img`: enough
/// stones were segmented, their separations gave a nonempty distance
/// sample, the estimator refined the stone size into the spacing, and the
/// lattice assignment around the centroid-nearest stone kept at least six
/// intersections.
pub open spec fn board_from(img: PixelImage, m: BoardMap) -> bool {
    exists|ss: int, stones: Seq<BlackStone>|
        {
            &&& #[trigger] stones_found(img, ss, stones)
            &&& stones.len() >= MIN_BLACK_STONES_ON_BOARD
            &&& stones.len() <= MAX_STONES
            &&& spec_distance_samples(centers_of(stones), ss).len() > 0
            &&& exists|ri: int|
                {
                    &&& #[trigger] is_best_ref(centers_of(stones), ri)
                    &&& assigned_ok(
                        centers_of(stones),
                        ri,
                        spec_spacing(spec_distance_samples(centers_of(stones), ss), ss),
                        m,
                    )
                }
            &&& m.entries@.len() >= MIN_BLACK_STONES_ON_BOARD
        }
}

/// No board can be reconstructed from `img`: either no candidate region
/// survives segmentation, or too few stones pass the size filter, or every
/// sampled separation was suppressed, or absurdly many stones appeared, or
/// fewer than six stones survived lattice assignment.
pub open spec fn no_board(img: PixelImage) -> bool {
    ||| no_stones_found(img)
    ||| exists|ss: int, stones: Seq<BlackStone>|
        {
            &&& #[trigger] stones_found(img, ss, stones)
            &&& {
                ||| stones.len() < MIN_BLACK_STONES_ON_BOARD
                ||| stones.len() > MAX_STONES
                ||| (stones.len() >= MIN_BLACK_STONES_ON_BOARD && spec_distance_samples(
                    centers_of(stones),
                    ss,
                ).len() == 0)
                ||| exists|ri: int, m2: BoardMap|
                    {
                        &&& #[trigger] is_best_ref(centers_of(stones), ri)
                        &&& #[trigger] assigned_ok(
                            centers_of(stones),
                            ri,
                            spec_spacing(spec_distance_samples(centers_of(stones), ss), ss),
                            m2,
                        )
                        &&& m2.entries@.len() < MIN_BLACK_STONES_ON_BOARD
                    }
            }
        }
}

/// Reconstructs the lattice of black stones from a photograph: segments
/// candidate stones, samples their separations, refines the grid spacing,
/// and snaps every stone onto integer lattice coordinates centered on the
/// stone nearest the centroid. Yields the board map, or `None` when no
/// board can be made out.
pub fn board_map(image: &PixelImage) -> (r: Option<BoardMap>)
    requires
        image.wf(),
    ensures
        match r {
            Some(m) => board_from(*image, m),
            None => no_board(*image),
        },
{
    let found = find_black_stones(image);
    match found {
        None => None,
        Some((stone_size, stones)) => {
            let count = stones.len();
            let mut centers: Vec<Point> = Vec::new();
            let mut i: usize = 0;
            while i < count
                invariant
                    count == stones@.len(),
                    i <= count,
                    forall|j: int| 0 <= j < stones@.len() ==> (#[trigger] stones@[j]).wf(),
                    centers@.len() == i,
                    forall|j: int| 0 <= j < i ==> #[trigger] centers@[j] == centers_of(stones@)[j],
                decreases count - i,
            {
                let c = stones[i].center();
                centers.push(c);
                i += 1;
            }
            proof {
                assert(centers@ =~= centers_of(stones@));
            }
            if centers.len() < MIN_BLACK_STONES_ON_BOARD {
                return None;
            }
            if centers.len() > MAX_STONES {
                return None;
            }
            let samples = sample_distances(&centers, stone_size);
            if samples.len() == 0 {
                return None;
            }
            proof {
                lemma_samples_positive(centers@, stone_size as int, centers@.len() - 2);
            }
            let spacing = estimate_spacing(&samples, stone_size);
            let ref_idx = pick_reference(&centers);
            let m = assign_lattice(&centers, ref_idx, spacing);
            if m.len() < MIN_BLACK_STONES_ON_BOARD {
                proof {
                    assert(no_board(*image));
                }
                return None;
            }
            proof {
                assert(board_from(*image, m));
            }
            Some(m)
        },
    }
}

} // verus!
