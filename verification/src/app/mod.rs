use vstd::prelude::*;
use self::difficulty::EDifficulty;
use crate::sudoku::game::EError;

pub mod difficulty;

verus! {

/// What the player chose to begin with.
#[derive(Clone, Copy, Debug, PartialEq, Eq, Structural)]
pub enum EStartChoice {
    NewGame(EDifficulty),
    LoadGame,
    Quit,
    Invalid,
}

/// What is to happen when the player leaves.
#[derive(PartialEq, Eq)]
pub enum EExitAction {
    Save(Option<String>),
    Exit,
}

/// Whether an application goes on.
#[derive(Clone, Copy, Debug, PartialEq, Eq, Structural)]
pub enum EAppState {
    Exit,
    Running,
}

/// An application that takes turns of type `T` and shows a `K` after each.
pub trait Turn<T, K> {
    /// The application is in order and the turn is one that it can take.
    spec fn admits(&self, turn: T) -> bool;

    fn do_turn(&mut self, turn: T) -> (result: Result<&K, EError>)
        requires
            old(self).admits(turn),
    ;
}

/// An application that does something between turns.
pub trait Tick {
    fn do_tick(&self);
}

/// An application that can be started.
pub trait Start {
    fn start(&mut self, start_choice: EStartChoice);
}

/// An application that knows whether it goes on.
pub trait AppState {
    fn get_state(&self) -> &EAppState;
}

/// An application with all of the above.
pub trait App<T, K>: Turn<T, K> + Tick + Start + AppState {
}

} // verus!
