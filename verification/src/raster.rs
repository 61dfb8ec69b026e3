//! The input raster and the pixel classifier.

use vstd::prelude::*;
use crate::num_ext::abs_diff;
use crate::num_ext::NumExt;

verus! {

/// Red values at or above this threshold disqualify a pixel as stone material.
pub const BLACK_THRESHOLD: u8 = 30;

/// The largest channel imbalance a pixel may have and still count as gray.
pub const GRAYNESS_LIMIT: u8 = 8;

/// The pixel classifier: a pixel is candidate black-stone material iff it is
/// dark (`r < 30`) and achromatic (all channel pairs within 8 of each other).
pub open spec fn is_stone_pixel_spec(r: u8, g: u8, b: u8) -> bool {
    &&& (r as int) < BLACK_THRESHOLD as int
    &&& abs_diff(r as int, g as int) <= GRAYNESS_LIMIT as int
    &&& abs_diff(r as int, b as int) <= GRAYNESS_LIMIT as int
    &&& abs_diff(g as int, b as int) <= GRAYNESS_LIMIT as int
}

/// Labels one pixel as candidate black-stone material or not.
/// A pure, total function of the three channel bytes.
pub fn is_stone_pixel(r: u8, g: u8, b: u8) -> (res: bool)
    ensures
        res == is_stone_pixel_spec(r, g, b),
{
    r < BLACK_THRESHOLD && r.diff(g) <= GRAYNESS_LIMIT && r.diff(b) <= GRAYNESS_LIMIT && g.diff(b)
        <= GRAYNESS_LIMIT
}

/// Classifier purity: any two calls of `is_stone_pixel` on the same three
/// bytes return equal values, and the predicate is exactly the
/// dark-achromatic test, including the boundary rows `r == 29` (stone
/// material if achromatic) and `r == 30` (never stone material).
pub proof fn lemma_classifier_pure(r: u8, g: u8, b: u8, first: bool, second: bool)
    requires
        first == is_stone_pixel_spec(r, g, b),
        second == is_stone_pixel_spec(r, g, b),
    ensures
        first == second,
        first == ((r as int) < 30 && abs_diff(r as int, g as int) <= 8 && abs_diff(
            r as int,
            b as int,
        ) <= 8 && abs_diff(g as int, b as int) <= 8),
        r == 29 ==> first == (abs_diff(r as int, g as int) <= 8 && abs_diff(r as int, b as int)
            <= 8 && abs_diff(g as int, b as int) <= 8),
        r == 30 ==> !first,
{
}

/// A rectangular raster of 24-bit color pixels, row-major, three bytes per
/// pixel in the order red, green, blue.
pub struct PixelImage {
    pub width: u32,
    pub height: u32,
    pub data: Vec<u8>,
}

impl PixelImage {
    /// Well-formed: positive dimensions and exactly three bytes per pixel.
    pub open spec fn wf(self) -> bool {
        &&& self.width >= 1
        &&& self.height >= 1
        &&& self.data@.len() == 3 * ((self.width as int) * (self.height as int))
    }

    /// The red channel of the pixel at column `x`, row `y`.
    pub open spec fn spec_red(self, x: int, y: int) -> u8 {
        self.data@[3 * (y * self.width + x)]
    }

    /// The green channel of the pixel at column `x`, row `y`.
    pub open spec fn spec_green(self, x: int, y: int) -> u8 {
        self.data@[3 * (y * self.width + x) + 1]
    }

    /// The blue channel of the pixel at column `x`, row `y`.
    pub open spec fn spec_blue(self, x: int, y: int) -> u8 {
        self.data@[3 * (y * self.width + x) + 2]
    }

    /// Whether the pixel at `(x, y)` is candidate black-stone material.
    pub open spec fn spec_stone_at(self, x: int, y: int) -> bool {
        is_stone_pixel_spec(
            self.spec_red(x, y),
            self.spec_green(x, y),
            self.spec_blue(x, y),
        )
    }

    /// Builds an image from its dimensions and raw bytes; rejects dimension
    /// or length mismatches. Returns `Some` iff both dimensions are positive
    /// and `data` holds exactly three bytes per pixel.
    pub fn new(width: u32, height: u32, data: Vec<u8>) -> (r: Option<PixelImage>)
        ensures
            match r {
                Some(img) => img.wf() && img.width == width && img.height == height && img.data@
                    == data@,
                None => width == 0 || height == 0 || data@.len() != 3 * ((width as int) * (
                height as int)),
            },
    {
        if width == 0 || height == 0 {
            return None;
        }
        let n: usize = data.len();
        proof {
            assert((width as int) * (height as int) <= (u32::MAX as int) * (u32::MAX as int))
                by (nonlinear_arith)
                requires
                    0 <= (width as int) && (width as int) <= u32::MAX as int,
                    0 <= (height as int) && (height as int) <= u32::MAX as int,
            ;
        }
        let pixels: u64 = (width as u64) * (height as u64);
        if pixels > (usize::MAX as u64) / 3 {
            return None;
        }
        if data.len() == 3 * (pixels as usize) {
            Some(PixelImage { width, height, data })
        } else {
            None
        }
    }

    /// Reads the three channels of the pixel at `(x, y)`.
    pub fn rgb_at(&self, x: u32, y: u32) -> (p: (u8, u8, u8))
        requires
            self.wf(),
            x < self.width,
            y < self.height,
        ensures
            p.0 == self.spec_red(x as int, y as int),
            p.1 == self.spec_green(x as int, y as int),
            p.2 == self.spec_blue(x as int, y as int),
    {
        let n: usize = self.data.len();
        proof {
            let w = self.width as int;
            let h = self.height as int;
            assert((y as int) * w + (x as int) < w * h && 0 <= (y as int) * w && 0 <= w * h)
                by (nonlinear_arith)
                requires
                    0 <= (x as int) && (x as int) < w,
                    0 <= (y as int) && (y as int) < h,
            ;
        }
        let idx: usize = 3 * ((y as usize) * (self.width as usize) + (x as usize));
        (self.data[idx], self.data[idx + 1], self.data[idx + 2])
    }
}

} // verus!
