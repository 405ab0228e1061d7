use vstd::prelude::*;
use super::super::app::difficulty::EDifficulty;
use super::ai::correctness::lemma_finished_is_completion;
use super::ai::solve_controller::{rank, ESolvingIntelligence};
use super::game::grid::{
    filled_count, has_conflict, lemma_full_count, lemma_subgrid_keeps_peace, valid_squares,
};
use super::game::{Board, BoardView, EError};
use self::completed_sudoku::completed;
use self::reduce::{all_initial, base_size, solved_from, tier_of};
use super::ai::solve_controller::solves;

pub use self::completed_sudoku::{BackTraceGenerator, FastestGenerator};
pub use self::reduce::BacktraceReducer;

pub mod completed_sudoku;
pub(crate) mod random;
pub mod reduce;

verus! {

/// The board is a puzzle of the given difficulty, ready for play: it holds
/// squares of the puzzle only, as many as the difficulty hands out, none of
/// them in conflict, and the solver of the difficulty finishes it.
pub open spec fn is_puzzle(b: BoardView, difficulty: EDifficulty) -> bool {
    &&& b.wf()
    &&& b.initialized
    &&& b.history.len() == 0
    &&& all_initial(b.cells)
    &&& !has_conflict(b.cells)
    &&& valid_squares(b.cells)
    &&& base_size(difficulty) <= filled_count(b.cells) <= base_size(difficulty) + 1
    &&& solved_from(b, tier_of(difficulty))
}

/// A source of boards to play on.
pub trait Generator {
    fn generate(difficulty: EDifficulty) -> (result: Result<Board, EError>)
        ensures
            result matches Ok(board) ==> board.wf(),
    ;
}

/// Generates puzzles: a completed board, reduced.
pub struct PuzzleGenerator {}

impl Generator for PuzzleGenerator {
    /// A puzzle of the given difficulty, drawn at random and taken into
    /// play; `NotSolvable` where the completed board that was drawn cannot
    /// be reduced to one.
    fn generate(difficulty: EDifficulty) -> (result: Result<Board, EError>)
        ensures
            match result {
                Ok(board) => is_puzzle(board@, difficulty),
                Err(e) => e == EError::NotSolvable,
            },
            difficulty == EDifficulty::VeryHard ==> result is Ok,
    {
        let mut board: Board = FastestGenerator::generate_board();
        let ghost full = board@;
        proof {
            lemma_full_count(full.cells);
            lemma_finished_is_completion(full.cells, full.cells);
        }
        match BacktraceReducer::reduce_to_puzzle(&mut board, difficulty) {
            Ok(()) => {
                proof {
                    lemma_subgrid_keeps_peace(full.cells, board@.cells);
                }
                let ghost reduced = board@;
                board.initialized(true);
                proof {
                    assert(board@.wf());
                    assert(board@.history.len() == 0);
                    assert(!has_conflict(board@.cells));
                    assert(all_initial(board@.cells)) by {
                        assert forall|i: int| super::game::grid::on_board(i) implies ((
                        #[trigger] reduced.cells[i]) matches Some(s) ==> s.initial) by {
                            if reduced.cells[i] is Some {
                                assert(full.cells[i] == reduced.cells[i]);
                            }
                        }
                    }
                    assert(base_size(difficulty) <= filled_count(board@.cells) <= base_size(
                        difficulty,
                    ) + 1);
                    assert(solved_from(reduced, tier_of(difficulty)));
                    assert((BoardView { initialized: true, ..board@ }) == (BoardView {
                        initialized: true,
                        ..reduced
                    }));
                    assert forall|stronger: ESolvingIntelligence|
                        rank(tier_of(difficulty)) <= rank(stronger) implies #[trigger] solves(
                        board@,
                        stronger,
                    ) by {
                        assert(solves(reduced, stronger));
                    }
                    assert(valid_squares(board@.cells)) by {
                        assert forall|i: int| super::game::grid::on_board(i) implies ((
                        #[trigger] reduced.cells[i]) matches Some(s) ==> 1 <= s.value <= 9) by {
                            if reduced.cells[i] is Some {
                                assert(full.cells[i] == reduced.cells[i]);
                            }
                        }
                    }
                }
                Ok(board)
            },
            Err(e) => Err(e),
        }
    }
}

} // verus!
