//! The per-cell state of the minefield, the overall game state, and the
//! engine's error type.

use vstd::prelude::*;

verus! {

/// One cell of the minefield.
///
/// `value` is `-1` for a mine, and otherwise the number of mines among the
/// cell's 8-connected in-bounds neighbors (so it lies in `0 ..= 8` on a
/// well-formed board). `covered` is true until the cell is revealed;
/// `flagged` is a player-placed marker that may only sit on a covered cell.
#[derive(Clone, Copy, PartialEq, Eq, Structural, Debug)]
pub struct Cell {
    pub value: i8,
    pub covered: bool,
    pub flagged: bool,
}

impl Cell {
    /// A fresh cell: no mine, covered, unflagged.
    pub fn new() -> (c: Cell)
        ensures
            c == (Cell { value: 0 as i8, covered: true, flagged: false }),
    {
        Cell { value: 0, covered: true, flagged: false }
    }

    /// The cell after one flag toggle: covered cells flip their flag,
    /// uncovered cells are left alone.
    pub open spec fn flag_toggled(self) -> Cell {
        if self.covered {
            Cell { flagged: !self.flagged, ..self }
        } else {
            self
        }
    }

    /// Flips the flag, but only while the cell is still covered.
    pub fn flag(&mut self)
        ensures
            *final(self) == old(self).flag_toggled(),
    {
        if self.covered {
            self.flagged = !self.flagged;
        }
    }

    /// True iff the cell holds a mine.
    pub open spec fn is_mine(self) -> bool {
        self.value == -1
    }
}

/// The derived game state: play continues in `InProgress`; `Won` and `Lost`
/// are terminal until the next reset.
#[derive(Clone, Copy, PartialEq, Eq, Structural, Debug)]
pub enum GameState {
    InProgress,
    Won,
    Lost,
}

/// The engine's error kinds. Every failure is a caller-side programmer
/// error, surfaced immediately.
#[derive(Clone, Copy, PartialEq, Eq, Structural, Debug)]
pub enum EngineError {
    /// The requested mine count does not fit the board.
    InvalidConfiguration,
    /// A coordinate lies outside the grid.
    OutOfBounds,
}

} // verus!
