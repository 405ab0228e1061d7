use vstd::prelude::*;

verus! {

/// Why an operation of the engine was refused or gave up.
#[derive(Clone, Copy, Debug, PartialEq, Eq, Hash, Structural)]
pub enum EError {
    /// An initial square was offered to a board in play, or a square of the
    /// game to a board that is still being set up.
    PhaseViolation,
    /// The target cell already holds a square.
    CellOccupied,
    /// The target cell holds a square of the puzzle itself.
    DeleteInitialForbidden,
    /// A search ran out of branches.
    NotSolvable,
    /// A step that cannot fail has failed.
    InternalInvariant,
}

impl EError {
    /// The text shown to the player for this error.
    pub fn message(&self) -> (text: &'static str)
        ensures
            text@ == self.spec_message(),
    {
        match self {
            EError::PhaseViolation => "Squares of the puzzle go on the board during setup, all others after it.",
            EError::CellOccupied => "A Field with these coordinates allready exists!",
            EError::DeleteInitialForbidden => "Deleting an initial square is not allowed.",
            EError::NotSolvable => "not solvable",
            EError::InternalInvariant => "An operation that should always work has failed.",
        }
    }

    /// The text of `message`.
    pub open spec fn spec_message(self) -> Seq<char> {
        match self {
            EError::PhaseViolation => "Squares of the puzzle go on the board during setup, all others after it."@,
            EError::CellOccupied => "A Field with these coordinates allready exists!"@,
            EError::DeleteInitialForbidden => "Deleting an initial square is not allowed."@,
            EError::NotSolvable => "not solvable"@,
            EError::InternalInvariant => "An operation that should always work has failed."@,
        }
    }
}

} // verus!
