use vstd::prelude::*;

verus! {

/// How a square is to be shown, from the most to the least binding mark.
#[derive(Clone, Copy, Debug, PartialEq, Eq, Hash, Structural)]
pub enum ESquareStyle {
    /// Part of the puzzle as it was handed out.
    Initial,
    /// Placed by the player and in conflict with another square.
    Conflict,
    /// Placed by the engine and in conflict with another square.
    GeneratedConflict,
    /// Placed by the engine.
    Generated,
    /// Placed by the player.
    Plain,
}

/// The content of one cell of the board.
#[derive(Clone, Copy, Debug, PartialEq, Eq, Hash, Structural)]
pub struct Square {
    pub value: u8,
    /// Placed while the board was being set up.
    pub initial: bool,
    /// Derived from the rules by `Board::mark_conflicts`; never consulted by
    /// the rules themselves.
    pub conflict: bool,
    /// Placed by the engine.
    pub generated: bool,
    /// Placed by the engine while searching.
    pub guessed: bool,
}

impl Square {
    /// The value is a Sudoku digit.
    pub open spec fn valid(self) -> bool {
        1 <= self.value <= 9
    }

    /// The class under which a display shows this square: a square of the
    /// puzzle as such, else a conflict before the mark of the engine.
    pub open spec fn spec_style(self) -> ESquareStyle {
        if self.initial {
            ESquareStyle::Initial
        } else if self.conflict && !self.generated {
            ESquareStyle::Conflict
        } else if self.conflict && self.generated {
            ESquareStyle::GeneratedConflict
        } else if self.generated {
            ESquareStyle::Generated
        } else {
            ESquareStyle::Plain
        }
    }

    /// A square placed by hand, either as part of the puzzle or by the player.
    pub fn new(value: u8, initial: bool) -> (s: Self)
        ensures
            s == (Square { value, initial, conflict: false, generated: false, guessed: false }),
    {
        Square { value: value, initial: initial, conflict: false, generated: false, guessed: false }
    }

    /// A square that the engine deduced.
    pub fn generate(value: u8) -> (s: Self)
        ensures
            s == (Square { value, initial: false, conflict: false, generated: true, guessed: false }),
    {
        Square { value: value, initial: false, conflict: false, generated: true, guessed: false }
    }

    /// A square that the engine placed on trial.
    pub fn guess(value: u8) -> (s: Self)
        ensures
            s == (Square { value, initial: false, conflict: false, generated: true, guessed: true }),
    {
        Square { value: value, initial: false, conflict: false, generated: true, guessed: true }
    }

    /// The class under which a display shows this square.
    pub fn style(&self) -> (style: ESquareStyle)
        ensures
            style == self.spec_style(),
    {
        if self.initial {
            ESquareStyle::Initial
        } else if self.conflict && !self.generated {
            ESquareStyle::Conflict
        } else if self.conflict && self.generated {
            ESquareStyle::GeneratedConflict
        } else if self.generated {
            ESquareStyle::Generated
        } else {
            ESquareStyle::Plain
        }
    }
}

} // verus!
