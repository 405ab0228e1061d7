use vstd::prelude::*;

verus! {

/// How hard a puzzle is to be.
#[derive(Clone, Copy, Debug, PartialEq, Eq, Hash, Structural)]
pub enum EDifficulty {
    Easy,
    Medium,
    Hard,
    VeryHard,
}

} // verus!
