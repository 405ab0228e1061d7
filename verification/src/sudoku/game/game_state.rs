use vstd::prelude::*;

verus! {

/// What a board looks like when it is held against the uniqueness rules.
#[derive(Clone, Copy, Debug, PartialEq, Eq, Hash, Structural)]
pub enum EGameState {
    /// No rule is violated and at least one cell is still empty.
    Okay,
    /// Some value occurs twice in a row, a column or a box.
    Conflict,
    /// All 81 cells are filled and no rule is violated.
    Finished,
}

} // verus!
