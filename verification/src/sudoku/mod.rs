use vstd::prelude::*;
use self::ai::solve_controller::{solve_result, ESolvingIntelligence, SolveController};
use self::ai::suggestion_controller::{suggestions, SuggestionController};
use self::ai::virtual_board::fields_of;
use self::ai::correctness::grown;
use self::game::grid::{solvable, state_of, valid_squares};
use self::game::{Board, Coordinate, EError, EGameState, Square};
use self::generator::{is_puzzle, Generator, PuzzleGenerator};
use super::app::difficulty::EDifficulty;
use super::app::{AppState, EAppState, EStartChoice, Start, Turn};

pub mod ai;
pub mod display;
pub mod game;
pub mod generator;
pub mod util;

verus! {

/// A game of Sudoku: the board, and whether the game goes on.
pub struct Sudoku {
    pub board: Board,
    pub app_state: EAppState,
}

impl Sudoku {
    /// The board is in order.
    pub open spec fn wf(&self) -> bool {
        self.board.wf()
    }

    /// A game on an empty board.
    pub fn new() -> (game: Self)
        ensures
            game.wf(),
            game.board@ == Board::new_view(),
            game.app_state == EAppState::Running,
    {
        Sudoku { board: Board::new(), app_state: EAppState::Running }
    }

    /// Takes the last placement back.
    pub fn undo(&mut self)
        requires
            old(self).wf(),
        ensures
            final(self).wf(),
            final(self).board@ == old(self).board@.undone(),
            final(self).app_state == old(self).app_state,
    {
        self.board.undo_last();
    }

    /// Removes every square that is not part of the puzzle.
    pub fn revert(&mut self)
        requires
            old(self).wf(),
        ensures
            final(self).wf(),
            final(self).board@ == old(self).board@.reverted(),
            final(self).app_state == old(self).app_state,
    {
        self.board.revert();
    }

    /// The placements that the candidates of the board force, after the one
    /// elimination pass.
    pub fn suggest(&self) -> (result: Vec<(Coordinate, Square)>)
        requires
            self.wf(),
        ensures
            result@ == suggestions(fields_of(self.board@.cells, ESolvingIntelligence::ComplexLogic)),
    {
        let controller = SuggestionController::new(&self.board, &ESolvingIntelligence::ComplexLogic);
        controller.get_suggestions()
    }

    /// The board solved as far as `intelligence` allows; the game itself
    /// stays as it is.
    pub fn solve(&self, intelligence: ESolvingIntelligence) -> (result: Result<Board, EError>)
        requires
            self.wf(),
        ensures
            match result {
                Ok(board) => {
                    &&& board.wf()
                    &&& solve_result(self.board@, intelligence) == Some(board@)
                    &&& grown(board@.cells, self.board@.cells)
                    &&& state_of(board@.cells) == EGameState::Finished || (intelligence
                        != ESolvingIntelligence::WithGuessing && state_of(board@.cells)
                        == EGameState::Okay)
                },
                Err(e) => e == EError::NotSolvable && solve_result(self.board@, intelligence) is None,
            },
            valid_squares(self.board@.cells) && intelligence == ESolvingIntelligence::WithGuessing
                ==> (result is Ok <==> solvable(self.board@.cells)),
    {
        SolveController::new(intelligence).solve(&self.board)
    }
}

impl Start for Sudoku {
    /// Begins a new game on a fresh puzzle, if that is the choice and a
    /// puzzle could be made; else the game stays as it is.
    fn start(&mut self, start_choice: EStartChoice)
        ensures
            final(self).app_state == old(self).app_state,
            final(self).board@ == old(self).board@ || (start_choice matches EStartChoice::NewGame(
                difficulty,
            ) && is_puzzle(final(self).board@, difficulty)),
            start_choice == EStartChoice::NewGame(EDifficulty::VeryHard) ==> is_puzzle(
                final(self).board@,
                EDifficulty::VeryHard,
            ),
    {
        match start_choice {
            EStartChoice::NewGame(p) => {
                match PuzzleGenerator::generate(p) {
                    Ok(board) => {
                        self.board = board;
                    },
                    Err(_) => {},
                }
            },
            _ => {},
        }
    }
}

impl AppState for Sudoku {
    fn get_state(&self) -> (state: &EAppState)
        ensures
            *state == self.app_state,
    {
        &self.app_state
    }
}

impl Turn<(Coordinate, Option<Square>), Board> for Sudoku {
    open spec fn admits(&self, turn: (Coordinate, Option<Square>)) -> bool {
        self.wf() && turn.0.valid()
    }

    /// Places the square of the turn, or empties the cell where the turn
    /// has none.
    fn do_turn(&mut self, turn: (Coordinate, Option<Square>)) -> (result: Result<&Board, EError>)
        ensures
            final(self).wf(),
            final(self).app_state == old(self).app_state,
            match turn.1 {
                Some(square) => {
                    &&& !old(self).board@.phase_admits(square) ==> result == Err::<&Board, EError>(
                        EError::PhaseViolation,
                    )
                    &&& old(self).board@.phase_admits(square) && old(self).board@.square_at(turn.0)
                        is Some ==> result == Err::<&Board, EError>(EError::CellOccupied)
                    &&& old(self).board@.phase_admits(square) && old(self).board@.square_at(turn.0)
                        is None ==> result is Ok && final(self).board@ == old(self).board@.filled(
                        turn.0,
                        square,
                    )
                },
                None => {
                    &&& (old(self).board@.square_at(turn.0) matches Some(s) && s.initial) ==> result
                        == Err::<&Board, EError>(EError::DeleteInitialForbidden)
                    &&& !(old(self).board@.square_at(turn.0) matches Some(s) && s.initial) ==> result
                        is Ok && final(self).board@ == old(self).board@.cleared(turn.0)
                },
            },
            result is Err ==> final(self).board@ == old(self).board@,
            result matches Ok(board) ==> board@ == final(self).board@,
    {
        let (coord, square) = turn;
        match square {
            Some(p) => {
                match self.board.fill_square(coord, p) {
                    Ok(_) => Ok(&self.board),
                    Err(e) => Err(e),
                }
            },
            None => {
                match self.board.delete_square(&coord) {
                    Ok(_) => Ok(&self.board),
                    Err(e) => Err(e),
                }
            },
        }
    }
}

} // verus!
