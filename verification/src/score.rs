//! Finished-board scoring: data model only, the counting is a planned
//! extension.

use vstd::prelude::*;

verus! {

/// What occupies one intersection of a finished board.
#[derive(Clone, Copy, Debug, PartialEq, Eq, Structural)]
pub enum Stone {
    White,
    Black,
    Vacant,
}

/// Whose territory one intersection counts toward.
#[derive(Clone, Copy, Debug, PartialEq, Eq, Structural)]
pub enum Territory {
    White,
    Black,
    Vacant,
}

/// A finished board of one of the three tournament sizes.
pub enum Board<T> {
    NineByNine([[T; 9]; 9]),
    ThirteenByThirteen([[T; 13]; 13]),
    NineteenByNineteen([[T; 19]; 19]),
}

/// Scoring a finished board is a planned extension: until it is written, no
/// territory judgment is handed out for any board.
pub fn count_score(_board: Board<Stone>) -> (r: Option<Board<Territory>>)
    ensures
        r is None,
{
    None
}

} // verus!
