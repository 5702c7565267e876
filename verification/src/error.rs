//! The reasons a move (or a raw board operation) can be rejected.

use vstd::prelude::*;

verus! {

/// Why a candidate placement, or a raw board operation, was rejected.
///
/// All validation failures are recoverable: the engine never partially
/// commits a rejected move. `IoError` is reserved for the word-list source
/// being unreadable at startup, which happens outside this core; the engine
/// itself never returns it.
#[derive(Clone, Debug, PartialEq, Eq)]
pub enum MoveError {
    /// A coordinate lies outside the grid.
    OutOfBounds,
    /// A target cell already holds a placed letter.
    CellOccupied,
    /// The hand does not hold the candidate letters (with multiplicity).
    LetterNotInHand,
    /// The candidates are not collinear and contiguous on one row or column.
    NotInLine,
    /// The first move of the game does not cover the board's center cell.
    MustCoverCenter,
    /// The move violates the local adjacency or global connectivity rule.
    Disconnected,
    /// A formed word is absent from the dictionary; carries the word.
    InvalidWord(Vec<char>),
    /// The word-list source could not be read at startup.
    IoError,
}

} // verus!
