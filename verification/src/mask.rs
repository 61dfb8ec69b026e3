//! The boolean mask of candidate stone pixels, stored flat and row-major.

use vstd::prelude::*;
use crate::raster::PixelImage;
use crate::raster::is_stone_pixel;

verus! {

/// A boolean grid with the dimensions of the input image: true marks a cell
/// whose pixel the classifier labelled as candidate black-stone material.
/// Stored as one flat row-major vector, never as a jagged structure.
pub struct MaskGrid {
    pub width: usize,
    pub height: usize,
    pub cells: Vec<bool>,
}

/// How many cells of `s` are true.
pub open spec fn count_true(s: Seq<bool>) -> nat
    decreases s.len(),
{
    if s.len() == 0 {
        0
    } else {
        count_true(s.drop_last()) + if s.last() {
            1nat
        } else {
            0nat
        }
    }
}

/// Clearing a true cell strictly lowers the count of true cells.
pub proof fn lemma_count_true_clear(s: Seq<bool>, i: int)
    requires
        0 <= i < s.len(),
        s[i],
    ensures
        count_true(s.update(i, false)) < count_true(s),
    decreases s.len(),
{
    let t = s.update(i, false);
    if i == s.len() - 1 {
        assert(t.drop_last() =~= s.drop_last());
    } else {
        assert(t.drop_last() =~= s.drop_last().update(i, false));
        lemma_count_true_clear(s.drop_last(), i);
    }
}

/// Leaving a false cell false leaves the count unchanged.
pub proof fn lemma_count_true_same(s: Seq<bool>, i: int)
    requires
        0 <= i < s.len(),
        !s[i],
    ensures
        count_true(s.update(i, false)) == count_true(s),
    decreases s.len(),
{
    let t = s.update(i, false);
    if i == s.len() - 1 {
        assert(t.drop_last() =~= s.drop_last());
        assert(t =~= s);
    } else {
        assert(t.drop_last() =~= s.drop_last().update(i, false));
        lemma_count_true_same(s.drop_last(), i);
    }
}

/// In a `width`-wide grid, the flat index of an in-bounds cell is in bounds.
#[verifier::nonlinear]
pub proof fn lemma_grid_index(w: int, h: int, x: int, y: int)
    requires
        0 <= x < w,
        0 <= y < h,
    ensures
        0 <= y * w + x < w * h,
        y * w + x == x + y * w,
{
}

/// Two distinct in-bounds cells of a `width`-wide grid have distinct flat
/// indices.
#[verifier::nonlinear]
pub proof fn lemma_grid_index_injective(w: int, x1: int, y1: int, x2: int, y2: int)
    requires
        0 <= x1 < w,
        0 <= x2 < w,
        0 <= y1,
        0 <= y2,
        y1 * w + x1 == y2 * w + x2,
    ensures
        x1 == x2 && y1 == y2,
{
}

impl MaskGrid {
    /// Well-formed: positive dimensions, one cell per pixel.
    pub open spec fn wf(self) -> bool {
        &&& self.width >= 1
        &&& self.height >= 1
        &&& self.cells@.len() == (self.width as int) * (self.height as int)
    }

    /// The value of the cell at `(x, y)`; false anywhere out of range.
    pub open spec fn cell(self, x: int, y: int) -> bool {
        &&& 0 <= x < self.width
        &&& 0 <= y < self.height
        &&& self.cells@[y * (self.width as int) + x]
    }

    /// How many cells are true.
    pub open spec fn spec_true_count(self) -> nat {
        count_true(self.cells@)
    }

    /// Reads the cell at `(x, y)`.
    pub fn get(&self, x: usize, y: usize) -> (v: bool)
        requires
            self.wf(),
            x < self.width,
            y < self.height,
        ensures
            v == self.cell(x as int, y as int),
    {
        let n: usize = self.cells.len();
        proof {
            lemma_grid_index(self.width as int, self.height as int, x as int, y as int);
        }
        self.cells[y * self.width + x]
    }

    /// Clears the cell at `(x, y)` to false; all other cells keep their value.
    pub fn clear(&mut self, x: usize, y: usize)
        requires
            old(self).wf(),
            x < old(self).width,
            y < old(self).height,
        ensures
            final(self).wf(),
            final(self).width == old(self).width,
            final(self).height == old(self).height,
            forall|i: int, j: int|
                final(self).cell(i, j) == (old(self).cell(i, j) && !(i == x as int && j
                    == y as int)),
            old(self).cell(x as int, y as int) ==> final(self).spec_true_count() < old(
                self,
            ).spec_true_count(),
            !old(self).cell(x as int, y as int) ==> final(self).spec_true_count() == old(
                self,
            ).spec_true_count(),
    {
        let n: usize = self.cells.len();
        proof {
            lemma_grid_index(self.width as int, self.height as int, x as int, y as int);
        }
        let idx: usize = y * self.width + x;
        self.cells.set(idx, false);
        proof {
            let w = self.width as int;
            let h = self.height as int;
            if old(self).cells@[idx as int] {
                lemma_count_true_clear(old(self).cells@, idx as int);
            } else {
                lemma_count_true_same(old(self).cells@, idx as int);
            }
            assert forall|i: int, j: int|
                self.cell(i, j) == (old(self).cell(i, j) && !(i == x as int && j
                    == y as int)) by {
                if 0 <= i < w && 0 <= j < h {
                    lemma_grid_index(w, h, i, j);
                    if j * w + i == (y as int) * w + (x as int) {
                        lemma_grid_index_injective(w, i, j, x as int, y as int);
                    }
                }
            }
        }
    }

    /// Reads the cell at a possibly signed, possibly out-of-range address,
    /// delivering `default` for any address off the grid.
    pub fn value_or(&self, x: i64, y: i64, default: bool) -> (v: bool)
        requires
            self.wf(),
        ensures
            v == if 0 <= x < self.width && 0 <= y < self.height {
                self.cell(x as int, y as int)
            } else {
                default
            },
    {
        if x < 0 || y < 0 {
            return default;
        }
        if (x as u64) >= (self.width as u64) || (y as u64) >= (self.height as u64) {
            return default;
        }
        self.get(x as usize, y as usize)
    }
}

/// Helper function for accessing a cell at a given address in the grid. If
/// the address is out of bounds, it delivers the default value instead.
pub fn pixel_value(grid: &MaskGrid, x: i64, y: i64, default: bool) -> (v: bool)
    requires
        grid.wf(),
    ensures
        v == if 0 <= x < grid.width && 0 <= y < grid.height {
            grid.cell(x as int, y as int)
        } else {
            default
        },
{
    grid.value_or(x, y, default)
}

/// Labels every pixel of `img`, producing the boolean mask that the blob
/// extractor consumes.
pub fn build_mask(img: &PixelImage) -> (m: MaskGrid)
    requires
        img.wf(),
        3 * ((img.width as int) * (img.height as int)) <= usize::MAX,
    ensures
        m.wf(),
        m.width == img.width,
        m.height == img.height,
        forall|x: int, y: int|
            #![trigger m.cell(x, y)]
            0 <= x < img.width && 0 <= y < img.height ==> m.cell(x, y) == img.spec_stone_at(x, y),
{
    let w: usize = img.width as usize;
    let h: usize = img.height as usize;
    proof {
        lemma_grid_index(w as int, h as int, 0, 0);
        assert((w as int) * (h as int) <= 3 * ((w as int) * (h as int))) by (nonlinear_arith)
            requires
                w >= 1 && h >= 1,
        ;
    }
    let mut cells: Vec<bool> = Vec::new();
    let mut y: usize = 0;
    while y < h
        invariant
            img.wf(),
            w == img.width,
            h == img.height,
            y <= h,
            cells@.len() == y * w,
            (w as int) * (h as int) <= usize::MAX,
            forall|i: int, j: int|
                0 <= i < w && 0 <= j < y ==> cells@[j * (w as int) + i] == img.spec_stone_at(i, j),
        decreases h - y,
    {
        let mut x: usize = 0;
        while x < w
            invariant
                img.wf(),
                w == img.width,
                h == img.height,
                y < h,
                x <= w,
                cells@.len() == y * w + x,
                (w as int) * (h as int) <= usize::MAX,
                forall|i: int, j: int|
                    0 <= i < w && 0 <= j < y ==> cells@[j * (w as int) + i] == img.spec_stone_at(
                        i,
                        j,
                    ),
                forall|i: int|
                    0 <= i < x ==> cells@[(y as int) * (w as int) + i] == img.spec_stone_at(
                        i,
                        y as int,
                    ),
            decreases w - x,
        {
            let (r, g, b) = img.rgb_at(x as u32, y as u32);
            let v = is_stone_pixel(r, g, b);
            proof {
                lemma_grid_index(w as int, h as int, x as int, y as int);
            }
            cells.push(v);
            proof {
                assert forall|i: int, j: int| 0 <= i < w && 0 <= j < y implies cells@[j * (
                w as int) + i] == img.spec_stone_at(i, j) by {
                    lemma_grid_index(w as int, y as int, i, j);
                    assert(j * (w as int) + i < (y as int) * (w as int) + (x as int))
                        by (nonlinear_arith)
                        requires
                            0 <= i < w && 0 <= j < y,
                    ;
                }
            }
            x += 1;
        }
        y += 1;
        proof {
            assert((y - 1) * w + w == y * w) by (nonlinear_arith);
        }
    }
    proof {
        assert((h as int) * (w as int) == (w as int) * (h as int)) by (nonlinear_arith);
    }
    let m = MaskGrid { width: w, height: h, cells };
    proof {
        assert forall|x: int, y2: int| 0 <= x < w && 0 <= y2 < h implies m.cell(x, y2)
            == img.spec_stone_at(x, y2) by {
            lemma_grid_index(w as int, h as int, x, y2);
        }
    }
    m
}

} // verus!
