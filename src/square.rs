use vstd::prelude::*;

verus! {

/// What a cell holds: a mine, the mine that the player set off, or the
/// number of mines among its neighbors.
#[derive(Debug, Copy, Clone, PartialEq, Eq, Structural)]
pub enum Contents {
    Mine,
    LosingMine,
    Empty(u8),
}

/// How much of a cell the player has uncovered or marked.
#[derive(Copy, Clone, Debug, PartialEq, Eq, Structural)]
pub enum SquareState {
    Unguessed,
    Flagged,
    BadFlagged,
    Guessed,
}

/// One cell of the board.
#[derive(Debug, Copy, Clone, PartialEq, Eq, Structural)]
pub struct Square {
    pub contents: Contents,
    pub state: SquareState,
}

impl Contents {
    /// The cell holds a mine, set off or not.
    pub open spec fn is_mine(self) -> bool {
        self is Mine || self is LosingMine
    }
}

} // verus!
