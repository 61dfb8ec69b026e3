//! Pixel positions.

use vstd::prelude::*;

verus! {

/// A pixel position: column `x`, row `y`, both counted from the top-left
/// corner of the image.
#[derive(Copy, Clone, Debug, Eq, Hash, PartialEq, Structural)]
pub struct Point {
    pub x: u32,
    pub y: u32,
}

impl Point {
    /// Builds a point from its column and row.
    pub fn new(x: u32, y: u32) -> (p: Point)
        ensures
            p.x == x && p.y == y,
    {
        Point { x, y }
    }

    /// Componentwise sum of two points.
    pub fn add(self, other: Point) -> (p: Point)
        requires
            self.x + other.x <= u32::MAX,
            self.y + other.y <= u32::MAX,
        ensures
            p.x == self.x + other.x,
            p.y == self.y + other.y,
    {
        Point { x: self.x + other.x, y: self.y + other.y }
    }
}

} // verus!
