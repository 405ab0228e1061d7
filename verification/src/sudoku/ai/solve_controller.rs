use vstd::prelude::*;
use super::super::game::grid::{
    empty_count, lemma_fill_empty_cell, on_board, solvable, state_after_add, state_of,
    valid_squares,
};
use super::correctness::{grown, lemma_guessing_is_complete, lemma_solved};
use super::super::game::{Board, BoardView, Coordinate, EError, EGameState, Square};
use super::field::{Field, FieldView};
use super::suggestion_controller::{
    lemma_suggestions, suggestions, SuggestionController,
};
use super::virtual_board::{fields_of, lemma_fields_flags, VirtualBoard};

verus! {

/// How much a solver may do to fill a cell.
#[derive(Clone, Copy, Debug, PartialEq, Eq, Hash, Structural)]
pub enum ESolvingIntelligence {
    /// Cells with one candidate left, and values with one cell left.
    SimpleLogic,
    /// The same, after candidates were narrowed by the rows and columns
    /// that a value is confined to within a quadrant.
    ComplexLogic,
    /// The simple deductions, and trial placements where they give out.
    WithGuessing,
}

/// The square that the engine places on trial for value `v`.
pub open spec fn guess_square(v: u8) -> Square {
    Square { value: v, initial: false, conflict: false, generated: true, guessed: true }
}

/// The board and state after the suggestions from the `k`-th on were placed
/// in turn. Placing stops at the first state other than `Okay`; a suggestion
/// for a cell that an earlier one has taken is a conflict.
pub open spec fn apply_from(b: BoardView, batch: Seq<(Coordinate, Square)>, k: int) -> (
    BoardView,
    EGameState,
)
    decreases batch.len() - k,
{
    if k < 0 || k >= batch.len() {
        (b, EGameState::Okay)
    } else if b.square_at(batch[k].0) is Some {
        (b, EGameState::Conflict)
    } else {
        let next = b.filled(batch[k].0, batch[k].1);
        let state = state_after_add(next.cells, batch[k].0.spec_index());
        if state == EGameState::Okay {
            apply_from(next, batch, k + 1)
        } else {
            (next, state)
        }
    }
}

/// The board and state that deduction alone reaches from an open board:
/// all suggestions are placed, then those of the new board, until a state
/// other than `Okay` comes up or no suggestion is left.
pub open spec fn deduce(b: BoardView, intelligence: ESolvingIntelligence) -> (BoardView, EGameState)
    decreases empty_count(b.cells),
{
    let batch = suggestions(fields_of(b.cells, intelligence));
    if batch.len() == 0 {
        (b, EGameState::Okay)
    } else {
        let (next, state) = apply_from(b, batch, 0);
        if state == EGameState::Okay && empty_count(next.cells) < empty_count(b.cells) {
            deduce(next, intelligence)
        } else {
            (next, state)
        }
    }
}

/// Cell `i` is empty and has between two and nine candidates.
pub open spec fn guessable(fields: Seq<FieldView>, i: int) -> bool {
    !fields[i].initial && !fields[i].filled && 2 <= fields[i].values.len() <= 9
}

/// Cell `i` is the one to guess at: no cell that can be guessed at has fewer
/// candidates, and none with as many comes before it.
pub open spec fn is_guess_cell(fields: Seq<FieldView>, i: int) -> bool {
    &&& on_board(i)
    &&& guessable(fields, i)
    &&& forall|j: int|
        on_board(j) && #[trigger] guessable(fields, j) ==> fields[i].values.len()
            < fields[j].values.len() || (fields[i].values.len() == fields[j].values.len() && i <= j)
}

/// The cell to guess at, if there is one.
pub open spec fn guess_cell(fields: Seq<FieldView>) -> Option<int> {
    if exists|i: int| is_guess_cell(fields, i) {
        Some(choose|i: int| is_guess_cell(fields, i))
    } else {
        None
    }
}

/// What solving a board in play comes to: none where a conflict was reached
/// or every guess failed; else the board that was reached, which is finished
/// or, below `WithGuessing`, may be stuck.
pub open spec fn solved(b: BoardView, intelligence: ESolvingIntelligence) -> Option<BoardView>
    decreases empty_count(b.cells), 1int, 0int,
{
    let (reached, state) = if state_of(b.cells) == EGameState::Okay {
        deduce(b, intelligence)
    } else {
        (b, state_of(b.cells))
    };
    match state {
        EGameState::Conflict => None,
        EGameState::Finished => Some(reached),
        EGameState::Okay => if intelligence != ESolvingIntelligence::WithGuessing {
            Some(reached)
        } else {
            match guess_cell(fields_of(reached.cells, intelligence)) {
                None => None,
                Some(i) => if empty_count(reached.cells) <= empty_count(b.cells) {
                    guessed(
                        reached,
                        intelligence,
                        i,
                        fields_of(reached.cells, intelligence)[i].values,
                        0,
                    )
                } else {
                    None
                },
            }
        },
    }
}

/// What trying the candidates `values` of cell `i`, from the `k`-th on,
/// comes to: the first finished board that a candidate leads to, if any.
pub open spec fn guessed(
    b: BoardView,
    intelligence: ESolvingIntelligence,
    i: int,
    values: Seq<u8>,
    k: int,
) -> Option<BoardView>
    decreases empty_count(b.cells), 0int, values.len() - k,
{
    if k < 0 || k >= values.len() {
        None
    } else {
        let next = b.filled(Coordinate::spec_from_index(i), guess_square(values[k]));
        match state_after_add(next.cells, i) {
            EGameState::Conflict => guessed(b, intelligence, i, values, k + 1),
            EGameState::Finished => Some(next),
            EGameState::Okay => if empty_count(next.cells) < empty_count(b.cells) {
                match solved(next, intelligence) {
                    Some(r) => Some(r),
                    None => guessed(b, intelligence, i, values, k + 1),
                }
            } else {
                None
            },
        }
    }
}

/// What `SolveController::solve` comes to on any board: the board is taken
/// into play and solved.
pub open spec fn solve_result(b: BoardView, intelligence: ESolvingIntelligence) -> Option<
    BoardView,
> {
    solved(BoardView { initialized: true, ..b }, intelligence)
}

/// A solver of the given intelligence finishes the board.
pub open spec fn solves(b: BoardView, intelligence: ESolvingIntelligence) -> bool {
    solve_result(b, intelligence) matches Some(r) && state_of(r.cells) == EGameState::Finished
}

/// The rank of an intelligence: what a solver of one rank finishes, a
/// solver of a higher rank finishes too.
pub open spec fn rank(intelligence: ESolvingIntelligence) -> int {
    match intelligence {
        ESolvingIntelligence::SimpleLogic => 0,
        ESolvingIntelligence::ComplexLogic => 1,
        ESolvingIntelligence::WithGuessing => 2,
    }
}

/// Solves a board as far as its intelligence allows.
pub struct SolveController {
    intelligence: ESolvingIntelligence,
}

impl SolveController {
    /// The intelligence that this controller solves with.
    pub closed spec fn intelligence(&self) -> ESolvingIntelligence {
        self.intelligence
    }

    /// A controller that solves with the given intelligence.
    pub fn new(intelligence: ESolvingIntelligence) -> (controller: Self)
        ensures
            controller.intelligence() == intelligence,
    {
        SolveController { intelligence }
    }

    /// Solves a copy of `b`, taken into play. The board that comes back is
    /// finished or, below `WithGuessing`, as far as deduction got;
    /// `NotSolvable` comes back where a conflict was reached or every guess
    /// failed.
    pub fn solve(&self, b: &Board) -> (result: Result<Board, EError>)
        requires
            b.wf(),
        ensures
            match result {
                Ok(board) => {
                    &&& board.wf()
                    &&& solve_result(b@, self.intelligence()) == Some(board@)
                    &&& board@.initialized
                    &&& grown(board@.cells, b@.cells)
                    &&& state_of(board@.cells) == EGameState::Finished || (self.intelligence()
                        != ESolvingIntelligence::WithGuessing && state_of(board@.cells)
                        == EGameState::Okay)
                },
                Err(e) => e == EError::NotSolvable && solve_result(b@, self.intelligence()) is None,
            },
            valid_squares(b@.cells) && solvable(b@.cells) ==> result is Ok,
            valid_squares(b@.cells) && self.intelligence() == ESolvingIntelligence::WithGuessing
                ==> (result is Ok <==> solvable(b@.cells)),
    {
        let mut board = b.clone();
        board.initialized(true);
        proof {
            lemma_solved(board@, self.intelligence, arbitrary());
            if valid_squares(b@.cells) {
                lemma_guessing_is_complete(b@, self.intelligence);
            }
        }
        iterate_solve(&board, &self.intelligence)
    }
}

/// Solves a copy of a board in play: see `solved`.
pub fn iterate_solve(b: &Board, intelligence: &ESolvingIntelligence) -> (result: Result<
    Board,
    EError,
>)
    requires
        b.wf(),
        b@.initialized,
    ensures
        match result {
            Ok(board) => board.wf() && solved(b@, *intelligence) == Some(board@),
            Err(e) => e == EError::NotSolvable && solved(b@, *intelligence) is None,
        },
    decreases empty_count(b@.cells),
{
    let mut board = b.clone();
    let mut state = board.get_state();
    if let EGameState::Okay = state {
        state = do_solving_iteration(&mut board, intelligence);
    }
    match state {
        EGameState::Conflict => Err(EError::NotSolvable),
        EGameState::Finished => Ok(board),
        EGameState::Okay => {
            match intelligence {
                ESolvingIntelligence::WithGuessing => {
                    let v_board = VirtualBoard::new(&board, intelligence);
                    match get_guess_data(&v_board) {
                        None => Err(EError::NotSolvable),
                        Some((index, field)) => {
                            proof {
                                lemma_fields_flags(board@.cells, *intelligence, index as int);
                            }
                            let values = field.get_possible_values();
                            let coordinate = Coordinate::from_index(index);
                            assert(solved(b@, *intelligence) == guessed(
                                board@,
                                *intelligence,
                                index as int,
                                values@,
                                0,
                            ));
                            let mut k: usize = 0;
                            while k < values.len()
                                invariant
                                    k <= values@.len(),
                                    board.wf(),
                                    board@.initialized,
                                    index < 81,
                                    coordinate == Coordinate::spec_from_index(index as int),
                                    coordinate.valid(),
                                    coordinate.spec_index() == index,
                                    board@.cells[index as int] is None,
                                    empty_count(board@.cells) <= empty_count(b@.cells),
                                    solved(b@, *intelligence) == guessed(
                                        board@,
                                        *intelligence,
                                        index as int,
                                        values@,
                                        k as int,
                                    ),
                                decreases values@.len() - k,
                            {
                                let mut attempt = board.clone();
                                let value = values[k];
                                proof {
                                    lemma_fill_empty_cell(
                                        board@.cells,
                                        index as int,
                                        guess_square(value),
                                    );
                                }
                                match attempt.fill_square(coordinate, Square::guess(value)) {
                                    Ok(EGameState::Conflict) => {},
                                    Ok(EGameState::Finished) => {
                                        return Ok(attempt);
                                    },
                                    Ok(EGameState::Okay) => {
                                        match iterate_solve(&attempt, intelligence) {
                                            Ok(res) => {
                                                return Ok(res);
                                            },
                                            Err(_) => {},
                                        }
                                    },
                                    Err(_) => {
                                        assert(false);
                                    },
                                }
                                k += 1;
                            }
                            Err(EError::NotSolvable)
                        },
                    }
                },
                _ => Ok(board),
            }
        },
    }
}

/// Deduction on an open board in play: see `deduce`.
pub fn do_solving_iteration(board: &mut Board, intelligence: &ESolvingIntelligence) -> (state:
    EGameState)
    requires
        old(board).wf(),
        old(board)@.initialized,
    ensures
        final(board).wf(),
        final(board)@.initialized,
        (final(board)@, state) == deduce(old(board)@, *intelligence),
        empty_count(final(board)@.cells) <= empty_count(old(board)@.cells),
{
    let ghost start = board@;
    let mut state = EGameState::Okay;
    loop
        invariant_except_break
            state == EGameState::Okay,
            deduce(board@, *intelligence) == deduce(start, *intelligence),
        invariant
            board.wf(),
            board@.initialized,
            empty_count(board@.cells) <= empty_count(start.cells),
        ensures
            (board@, state) == deduce(start, *intelligence),
        decreases empty_count(board@.cells),
    {
        let ghost before = board@;
        let controller = SuggestionController::new(board, intelligence);
        let batch = controller.get_suggestions();
        if batch.len() == 0 {
            break ;
        }
        let mut k: usize = 0;
        while k < batch.len() && matches!(state, EGameState::Okay)
            invariant
                k <= batch@.len(),
                board.wf(),
                board@.initialized,
                batch@ == suggestions(fields_of(before.cells, *intelligence)),
                state == EGameState::Okay ==> apply_from(board@, batch@, k as int) == apply_from(
                    before,
                    batch@,
                    0,
                ),
                state != EGameState::Okay ==> (board@, state) == apply_from(before, batch@, 0),
                empty_count(board@.cells) <= empty_count(before.cells),
                k > 0 ==> empty_count(board@.cells) < empty_count(before.cells),
                k == 0 ==> board@ == before,
            decreases batch@.len() - k,
        {
            let (coordinate, square) = batch[k];
            proof {
                lemma_suggestions(fields_of(before.cells, *intelligence), batch@[k as int]);
                assert(batch@.contains(batch@[k as int]));
                if board@.cells[coordinate.spec_index()] is None {
                    lemma_fill_empty_cell(board@.cells, coordinate.spec_index(), square);
                }
                if k == 0 {
                    lemma_fields_flags(before.cells, *intelligence, coordinate.spec_index());
                }
            }
            if board.get_square(&coordinate).is_some() {
                state = EGameState::Conflict;
            } else {
                match board.fill_square(coordinate, square) {
                    Ok(p) => {
                        state = p;
                    },
                    Err(_) => {
                        assert(false);
                    },
                }
            }
            k += 1;
        }
        if !matches!(state, EGameState::Okay) {
            break ;
        }
    }
    state
}

/// The cell to guess at and its field, if there is such a cell: the first
/// among those with the fewest candidates, from two candidates on.
pub fn get_guess_data(v_board: &VirtualBoard) -> (result: Option<(usize, Field)>)
    requires
        v_board.wf(),
    ensures
        match result {
            Some((i, field)) => is_guess_cell(v_board@, i as int) && guess_cell(v_board@) == Some(
                i as int,
            ) && field@ == v_board@[i as int],
            None => guess_cell(v_board@) is None && forall|j: int|
                on_board(j) ==> !#[trigger] guessable(v_board@, j),
        },
{
    let data = v_board.get_data();
    let mut threshold: usize = 2;
    while threshold < 10
        invariant
            2 <= threshold <= 10,
            data@.len() == 81,
            v_board@.len() == 81,
            forall|i: int| 0 <= i < 81 ==> (#[trigger] data@[i])@ == v_board@[i],
            forall|j: int|
                on_board(j) && #[trigger] guessable(v_board@, j) ==> v_board@[j].values.len()
                    >= threshold,
        decreases 10 - threshold,
    {
        let mut i: usize = 0;
        while i < 81
            invariant
                i <= 81,
                2 <= threshold < 10,
                data@.len() == 81,
                v_board@.len() == 81,
                forall|i: int| 0 <= i < 81 ==> (#[trigger] data@[i])@ == v_board@[i],
                forall|j: int|
                    on_board(j) && #[trigger] guessable(v_board@, j) ==> v_board@[j].values.len()
                        >= threshold,
                forall|j: int|
                    0 <= j < i && #[trigger] guessable(v_board@, j) ==> v_board@[j].values.len()
                        != threshold,
            decreases 81 - i,
        {
            let p = &data[i];
            if !p.is_initial() && !p.is_filled() && p.get_possible_values().len() == threshold {
                proof {
                    assert(is_guess_cell(v_board@, i as int));
                    let chosen = choose|c: int| is_guess_cell(v_board@, c);
                    assert(guessable(v_board@, chosen));
                    assert(guessable(v_board@, i as int));
                }
                return Some((i, p.clone()));
            }
            i += 1;
        }
        threshold += 1;
    }
    None
}

} // verus!
