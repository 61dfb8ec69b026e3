//! Arithmetic helpers on unsigned integers.

use vstd::prelude::*;

verus! {

/// Absolute difference of two mathematical integers.
pub open spec fn abs_diff(a: int, b: int) -> int {
    if a >= b {
        a - b
    } else {
        b - a
    }
}

/// Unsigned integers with an exact absolute-difference operation, which
/// avoids the underflow that a plain subtraction of unsigned values risks.
pub trait NumExt: Sized + Copy {
    /// The mathematical value of the number.
    spec fn as_int(self) -> int;

    /// The absolute difference `|self - other|`.
    fn diff(self, other: Self) -> (r: Self)
        ensures
            r.as_int() == abs_diff(self.as_int(), other.as_int()),
    ;
}

impl NumExt for u8 {
    open spec fn as_int(self) -> int {
        self as int
    }

    fn diff(self, other: Self) -> (r: Self) {
        if self > other {
            self - other
        } else {
            other - self
        }
    }
}

impl NumExt for u32 {
    open spec fn as_int(self) -> int {
        self as int
    }

    fn diff(self, other: Self) -> (r: Self) {
        if self > other {
            self - other
        } else {
            other - self
        }
    }
}

} // verus!
