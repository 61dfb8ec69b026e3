//! Blobs: bounding boxes of connected regions of candidate stone pixels.

use vstd::prelude::*;
use crate::point::Point;

verus! {

/// The axis-aligned bounding box of one connected region of candidate
/// black-stone pixels.
#[derive(Clone, Copy, Debug)]
pub struct BlackStone {
    /// The corner with the lowest x and y values.
    pub top_left: Point,
    /// The corner with the highest x and y values.
    pub bottom_right: Point,
}

impl BlackStone {
    /// A bounding box never has its corners crossed.
    pub open spec fn wf(self) -> bool {
        &&& self.top_left.x <= self.bottom_right.x
        &&& self.top_left.y <= self.bottom_right.y
    }

    /// Whether the cell `(x, y)` lies inside the bounding box.
    pub open spec fn spec_contains(self, x: int, y: int) -> bool {
        &&& self.top_left.x <= x <= self.bottom_right.x
        &&& self.top_left.y <= y <= self.bottom_right.y
    }

    /// The horizontal extent, as the difference of the corner columns.
    pub open spec fn spec_width(self) -> int {
        self.bottom_right.x - self.top_left.x
    }

    /// The vertical extent, as the difference of the corner rows.
    pub open spec fn spec_height(self) -> int {
        self.bottom_right.y - self.top_left.y
    }

    /// The pixel at the (bottom-right leaning) middle of the bounding box.
    /// On odd spans the midpoint is deliberately skewed toward the
    /// bottom-right corner; lattice assignment depends on this exact form.
    pub open spec fn spec_center(self) -> Point {
        Point {
            x: (self.bottom_right.x - (self.bottom_right.x - self.top_left.x) / 2) as u32,
            y: (self.bottom_right.y - (self.bottom_right.y - self.top_left.y) / 2) as u32,
        }
    }

    /// Builds a degenerate box holding the single cell `at`.
    pub fn new(at: Point) -> (b: BlackStone)
        ensures
            b.top_left == at,
            b.bottom_right == at,
            b.wf(),
    {
        BlackStone { top_left: at, bottom_right: at }
    }

    /// Grows the box exactly enough to contain `point`.
    pub fn push(&mut self, point: Point)
        ensures
            final(self).top_left.x == if point.x < old(self).top_left.x {
                point.x
            } else {
                old(self).top_left.x
            },
            final(self).top_left.y == if point.y < old(self).top_left.y {
                point.y
            } else {
                old(self).top_left.y
            },
            final(self).bottom_right.x == if point.x > old(self).bottom_right.x {
                point.x
            } else {
                old(self).bottom_right.x
            },
            final(self).bottom_right.y == if point.y > old(self).bottom_right.y {
                point.y
            } else {
                old(self).bottom_right.y
            },
            old(self).wf() ==> final(self).wf(),
    {
        if point.x < self.top_left.x {
            self.top_left.x = point.x;
        }
        if point.y < self.top_left.y {
            self.top_left.y = point.y;
        }
        if point.x > self.bottom_right.x {
            self.bottom_right.x = point.x;
        }
        if point.y > self.bottom_right.y {
            self.bottom_right.y = point.y;
        }
    }

    /// The horizontal extent of the box.
    pub fn width(&self) -> (w: u32)
        requires
            self.wf(),
        ensures
            w == self.spec_width(),
    {
        self.bottom_right.x - self.top_left.x
    }

    /// The vertical extent of the box.
    pub fn height(&self) -> (h: u32)
        requires
            self.wf(),
        ensures
            h == self.spec_height(),
    {
        self.bottom_right.y - self.top_left.y
    }

    /// The center pixel of the box, skewed toward the bottom-right corner on
    /// odd spans.
    pub fn center(&self) -> (c: Point)
        requires
            self.wf(),
        ensures
            c == self.spec_center(),
    {
        let x = self.bottom_right.x - (self.bottom_right.x - self.top_left.x) / 2;
        let y = self.bottom_right.y - (self.bottom_right.y - self.top_left.y) / 2;
        Point::new(x, y)
    }
}

} // verus!
