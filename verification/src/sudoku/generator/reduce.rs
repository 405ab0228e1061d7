use vstd::prelude::*;
use super::random::{below, lemma_permutation, shuffle};
use super::super::ai::correctness::{lemma_guessing_is_complete, lemma_solved_by_stronger};
use super::super::ai::solve_controller::{rank, solves, ESolvingIntelligence, SolveController};
use super::super::game::{Board, BoardView, Coordinate, EError, EGameState, Square};
use super::super::game::grid::{
    completes, extends, filled_count, filled_upto, lemma_completion_of_smaller,
    lemma_filled_upto_update, on_board, solvable, valid_squares,
};
use super::super::super::app::difficulty::EDifficulty;

verus! {

/// The intelligence that a puzzle of the given difficulty is made for.
pub open spec fn tier_of(difficulty: EDifficulty) -> ESolvingIntelligence {
    match difficulty {
        EDifficulty::Easy => ESolvingIntelligence::SimpleLogic,
        EDifficulty::Medium => ESolvingIntelligence::ComplexLogic,
        EDifficulty::Hard => ESolvingIntelligence::ComplexLogic,
        EDifficulty::VeryHard => ESolvingIntelligence::WithGuessing,
    }
}

/// The least number of squares that a puzzle of the given difficulty is
/// handed out with; it may have one more.
pub open spec fn base_size(difficulty: EDifficulty) -> nat {
    match difficulty {
        EDifficulty::Easy => 30,
        EDifficulty::Medium => 26,
        EDifficulty::Hard => 24,
        EDifficulty::VeryHard => 20,
    }
}

/// Every square on the grid is one of the puzzle.
pub open spec fn all_initial(cells: Seq<Option<Square>>) -> bool {
    forall|i: int| on_board(i) ==> ((#[trigger] cells[i]) matches Some(s) ==> s.initial)
}

/// The board without the square in cell `i`.
pub open spec fn without_cell(b: BoardView, i: int) -> BoardView {
    BoardView { cells: b.cells.update(i, None), ..b }
}

/// The board can be brought down to `target` squares by taking away one
/// square after the other, so that after each the solver still finishes it.
pub open spec fn reducible(b: BoardView, target: nat, intelligence: ESolvingIntelligence) -> bool
    decreases filled_count(b.cells),
{
    filled_count(b.cells) <= target || exists|i: int|
        on_board(i) && (#[trigger] b.cells[i]) is Some && solves(without_cell(b, i), intelligence)
            && filled_count(without_cell(b, i).cells) < filled_count(b.cells) && reducible(
            without_cell(b, i),
            target,
            intelligence,
        )
}

/// Every solver of at least the given intelligence finishes the board.
pub open spec fn solved_from(b: BoardView, intelligence: ESolvingIntelligence) -> bool {
    forall|stronger: ESolvingIntelligence|
        rank(intelligence) <= rank(stronger) ==> #[trigger] solves(b, stronger)
}

/// A board that a solver finishes is finished by every solver of at least
/// the same intelligence.
pub proof fn lemma_solved_from(b: BoardView, intelligence: ESolvingIntelligence)
    requires
        b.wf(),
        valid_squares(b.cells),
        solves(b, intelligence),
    ensures
        solved_from(b, intelligence),
{
    assert forall|stronger: ESolvingIntelligence|
        rank(intelligence) <= rank(stronger) implies #[trigger] solves(b, stronger) by {
        lemma_solved_by_stronger(b, intelligence, stronger);
    }
}

/// Some cell among the first `n` is filled, if any is counted.
pub proof fn lemma_some_filled(cells: Seq<Option<Square>>, n: int) -> (i: int)
    requires
        filled_upto(cells, n) > 0,
    ensures
        0 <= i < n,
        cells[i] is Some,
    decreases n,
{
    if cells[n - 1] is Some {
        n - 1
    } else {
        lemma_some_filled(cells, n - 1)
    }
}

/// With guessing, a board of digits that can be completed can be brought
/// down to any size: whatever is taken away, it can be completed still.
pub proof fn lemma_reducible_with_guessing(b: BoardView, target: nat)
    requires
        b.wf(),
        valid_squares(b.cells),
        solvable(b.cells),
    ensures
        reducible(b, target, ESolvingIntelligence::WithGuessing),
    decreases filled_count(b.cells),
{
    if filled_count(b.cells) > target {
        let i = lemma_some_filled(b.cells, 81);
        let next = without_cell(b, i);
        let s = choose|s: Seq<u8>| completes(s, b.cells);
        assert(b.cells[i]->0.value == s[i]);
        lemma_completion_of_smaller(s, b.cells, i);
        lemma_filled_upto_update(b.cells, i, None, 81);
        assert forall|j: int| on_board(j) implies ((#[trigger] next.cells[j]) matches Some(sq) ==> 1
            <= sq.value <= 9) by {
            if j != i {
                assert(next.cells[j] == b.cells[j]);
            }
        }
        lemma_guessing_is_complete(next, ESolvingIntelligence::WithGuessing);
        lemma_reducible_with_guessing(next, target);
        assert(b.cells[i] is Some);
    }
}

/// The indices of the filled cells among the first `n`, in ascending order.
pub open spec fn filled_cells(cells: Seq<Option<Square>>, n: int) -> Seq<u8>
    decreases n,
{
    if n <= 0 {
        Seq::empty()
    } else if cells[n - 1] is Some {
        filled_cells(cells, n - 1).push((n - 1) as u8)
    } else {
        filled_cells(cells, n - 1)
    }
}

/// The indices of the cells that the placements name.
pub open spec fn indices_of(list: Seq<(Coordinate, Square)>) -> Seq<u8> {
    Seq::new(list.len(), |k: int| list[k].0.spec_index() as u8)
}

/// The list of filled cells names each filled cell among the first `n`
/// once, and no other.
pub proof fn lemma_filled_cells(cells: Seq<Option<Square>>, n: int)
    requires
        0 <= n <= 81,
    ensures
        filled_cells(cells, n).len() == filled_upto(cells, n),
        filled_cells(cells, n).no_duplicates(),
        forall|x: u8|
            #[trigger] filled_cells(cells, n).contains(x) <==> (x < n && cells[x as int] is Some),
    decreases n,
{
    if n > 0 {
        lemma_filled_cells(cells, n - 1);
        let rest = filled_cells(cells, n - 1);
        let all = filled_cells(cells, n);
        assert forall|x: u8| #[trigger] all.contains(x) <==> (x < n && cells[x as int] is Some) by {
            if all.contains(x) {
                let m = choose|m: int| 0 <= m < all.len() && all[m] == x;
                if m < rest.len() {
                    assert(rest[m] == x);
                    assert(rest.contains(x));
                }
            }
            if x < n && cells[x as int] is Some {
                if x == n - 1 {
                    assert(all[all.len() - 1] == x);
                } else {
                    assert(rest.contains(x));
                    let m = choose|m: int| 0 <= m < rest.len() && rest[m] == x;
                    assert(all[m] == x);
                }
            }
        }
        assert forall|a: int, b: int| 0 <= a < all.len() && 0 <= b < all.len() && a != b implies all[a]
            != all[b] by {
            if a < rest.len() {
                assert(rest.contains(rest[a]));
            }
            if b < rest.len() {
                assert(rest.contains(rest[b]));
            }
        }
    }
}

/// Takes squares away from a completed board until a puzzle is left.
pub struct BacktraceReducer {}

impl BacktraceReducer {
    /// Reduces a board in its setup phase to a puzzle of the given
    /// difficulty: squares are taken away, in a random order, down to the
    /// base size of the difficulty or one more, so that after each the
    /// solver of the difficulty still finishes the board. `NotSolvable`
    /// comes back, with the board as it was, where no order of taking away
    /// leads that far.
    pub fn reduce_to_puzzle(board: &mut Board, difficulty: EDifficulty) -> (result: Result<
        (),
        EError,
    >)
        requires
            old(board).wf(),
            !old(board)@.initialized,
            all_initial(old(board)@.cells),
        ensures
            final(board).wf(),
            final(board)@.history == old(board)@.history,
            final(board)@.initialized == old(board)@.initialized,
            match result {
                Ok(()) => {
                    &&& extends(old(board)@.cells, final(board)@.cells)
                    &&& filled_count(final(board)@.cells) <= base_size(difficulty) + 1
                    &&& filled_count(old(board)@.cells) >= base_size(difficulty) ==> filled_count(
                        final(board)@.cells,
                    ) >= base_size(difficulty)
                    &&& final(board)@ == old(board)@ || solves(final(board)@, tier_of(difficulty))
                    &&& valid_squares(old(board)@.cells) && solves(
                        final(board)@,
                        tier_of(difficulty),
                    ) ==> solved_from(final(board)@, tier_of(difficulty))
                },
                Err(e) => {
                    &&& e == EError::NotSolvable
                    &&& final(board)@ == old(board)@
                    &&& !reducible(old(board)@, base_size(difficulty), tier_of(difficulty))
                        || !reducible(old(board)@, base_size(difficulty) + 1, tier_of(difficulty))
                },
            },
            difficulty == EDifficulty::VeryHard && valid_squares(old(board)@.cells) && solvable(
                old(board)@.cells,
            ) ==> result is Ok,
    {
        let number_of_pre_filled_guesses = get_number_of_guesses(&difficulty);
        proof {
            if difficulty == EDifficulty::VeryHard && valid_squares(board@.cells) && solvable(
                board@.cells,
            ) {
                lemma_reducible_with_guessing(board@, number_of_pre_filled_guesses as nat);
            }
        }
        let result = iterate_remove_square(board, number_of_pre_filled_guesses, &difficulty);
        proof {
            if result is Ok && valid_squares(old(board)@.cells) && solves(
                board@,
                tier_of(difficulty),
            ) {
                assert forall|j: int| on_board(j) implies ((#[trigger] board@.cells[j]) matches Some(
                    sq,
                ) ==> 1 <= sq.value <= 9) by {
                    if board@.cells[j] is Some {
                        assert(old(board)@.cells[j] == board@.cells[j]);
                    }
                }
                lemma_solved_from(board@, tier_of(difficulty));
            }
        }
        result
    }
}

/// Reduces a board in its setup phase to `target_size` squares: see
/// `BacktraceReducer::reduce_to_puzzle`. A board that has no more squares
/// than that stays as it is.
pub fn iterate_remove_square(board: &mut Board, target_size: u8, difficulty: &EDifficulty) -> (result:
    Result<(), EError>)
    requires
        old(board).wf(),
        !old(board)@.initialized,
        all_initial(old(board)@.cells),
    ensures
        final(board).wf(),
        final(board)@.history == old(board)@.history,
        final(board)@.initialized == old(board)@.initialized,
        match result {
            Ok(()) => {
                &&& extends(old(board)@.cells, final(board)@.cells)
                &&& filled_count(old(board)@.cells) <= target_size ==> final(board)@ == old(board)@
                &&& filled_count(old(board)@.cells) > target_size ==> filled_count(
                    final(board)@.cells,
                ) == target_size && solves(final(board)@, tier_of(*difficulty))
            },
            Err(e) => {
                &&& e == EError::NotSolvable
                &&& final(board)@ == old(board)@
                &&& !reducible(old(board)@, target_size as nat, tier_of(*difficulty))
            },
        },
    decreases filled_count(old(board)@.cells),
{
    let ghost start = board@;
    if board.get_size() <= target_size as usize {
        return Ok(());
    }
    let list = get_coordinates(board);
    let mut k: usize = 0;
    while k < list.len()
        invariant
            k <= list@.len(),
            board.wf(),
            board@ == start,
            start == old(board)@,
            !start.initialized,
            all_initial(start.cells),
            filled_count(start.cells) > target_size,
            forall|m: int|
                0 <= m < list@.len() ==> (#[trigger] list@[m]).0.valid() && start.cells[list@[m].0.spec_index()]
                    == Some(list@[m].1),
            forall|i: int|
                on_board(i) && start.cells[i] is Some ==> #[trigger] indices_of(list@).contains(
                    i as u8,
                ),
            forall|m: int|
                0 <= m < k ==> !(solves(
                    without_cell(start, (#[trigger] list@[m]).0.spec_index()),
                    tier_of(*difficulty),
                ) && reducible(
                    without_cell(start, list@[m].0.spec_index()),
                    target_size as nat,
                    tier_of(*difficulty),
                )),
        decreases list@.len() - k,
    {
        let (coordinate, square) = list[k];
        let ghost i = coordinate.spec_index();
        board.delete_force(&coordinate);
        proof {
            lemma_filled_upto_update(start.cells, i, None, 81);
            assert(board@ == without_cell(start, i));
            assert forall|j: int| on_board(j) implies ((#[trigger] board@.cells[j]) matches Some(s)
                ==> s.initial) by {
                if j != i {
                    assert(start.cells[j] == board@.cells[j]);
                }
            }
        }
        let sc = SolveController::new(map_difficulty_to_intelligence(difficulty));
        let solvable = match sc.solve(board) {
            Err(_) => false,
            Ok(res) => matches!(res.get_state(), EGameState::Finished),
        };
        if solvable {
            match iterate_remove_square(board, target_size, difficulty) {
                Err(_) => {},
                Ok(()) => {
                    proof {
                        assert forall|j: int|
                            0 <= j < board@.cells.len() && board@.cells[j] is Some implies #[trigger] start.cells[j]
                            == board@.cells[j] by {
                            assert(without_cell(start, i).cells[j] == board@.cells[j]);
                        }
                    }
                    return Ok(());
                },
            }
        }
        match board.fill_square(coordinate, square) {
            Ok(_) => {},
            Err(_) => {
                assert(false);
            },
        }
        proof {
            assert(board@.cells =~= start.cells);
        }
        k += 1;
    }
    proof {
        if reducible(start, target_size as nat, tier_of(*difficulty)) {
            let i = choose|i: int|
                on_board(i) && (#[trigger] start.cells[i]) is Some && solves(
                    without_cell(start, i),
                    tier_of(*difficulty),
                ) && filled_count(without_cell(start, i).cells) < filled_count(start.cells)
                    && reducible(without_cell(start, i), target_size as nat, tier_of(*difficulty));
            assert(indices_of(list@).contains(i as u8));
            let m = choose|m: int| 0 <= m < list@.len() && indices_of(list@)[m] == i as u8;
            assert(list@[m].0.spec_index() == i);
        }
    }
    Err(EError::NotSolvable)
}

/// The filled cells of the board with their squares, in a random order.
pub fn get_coordinates(board: &Board) -> (result: Vec<(Coordinate, Square)>)
    requires
        board.wf(),
    ensures
        result@.len() == filled_count(board@.cells),
        indices_of(result@).to_multiset() == filled_cells(board@.cells, 81).to_multiset(),
        forall|m: int|
            0 <= m < result@.len() ==> (#[trigger] result@[m]).0.valid() && board@.cells[result@[m].0.spec_index()]
                == Some(result@[m].1),
        forall|i: int|
            on_board(i) && board@.cells[i] is Some ==> #[trigger] indices_of(result@).contains(
                i as u8,
            ),
{
    let data = board.get_data();
    let mut range: Vec<u8> = Vec::new();
    let mut i: u8 = 0;
    while i < 81
        invariant
            i <= 81,
            data@.len() == 81,
            range@ == filled_cells(data@, i as int),
        decreases 81 - i,
    {
        if data[i as usize].is_some() {
            range.push(i);
        }
        i += 1;
    }
    shuffle(&mut range);
    proof {
        lemma_filled_cells(data@, 81);
        lemma_permutation(range@, filled_cells(data@, 81));
    }
    let mut result: Vec<(Coordinate, Square)> = Vec::new();
    let mut k: usize = 0;
    while k < range.len()
        invariant
            k <= range@.len(),
            data@.len() == 81,
            data@ == board@.cells,
            forall|x: u8| range@.contains(x) <==> (x < 81 && data@[x as int] is Some),
            result@.len() == k,
            forall|m: int|
                0 <= m < k ==> (#[trigger] result@[m]).0.valid() && result@[m].0.spec_index()
                    == range@[m] && data@[range@[m] as int] == Some(result@[m].1),
        decreases range@.len() - k,
    {
        let index = range[k];
        assert(range@.contains(index));
        match data[index as usize] {
            Some(p) => {
                result.push((Coordinate::from_index(index as usize), p));
            },
            None => {
                assert(false);
            },
        }
        k += 1;
    }
    proof {
        assert(indices_of(result@) =~= range@);
        assert forall|i: int| on_board(i) && board@.cells[i] is Some implies #[trigger] indices_of(
            result@,
        ).contains(i as u8) by {
            assert(range@.contains(i as u8));
        }
    }
    result
}

/// The number of squares that a puzzle of the given difficulty is handed
/// out with: its base size, or one more, by chance.
pub fn get_number_of_guesses(difficulty: &EDifficulty) -> (number: u8)
    ensures
        base_size(*difficulty) <= number <= base_size(*difficulty) + 1,
{
    let base: u8 = match difficulty {
        EDifficulty::Easy => 30,
        EDifficulty::Medium => 26,
        EDifficulty::Hard => 24,
        EDifficulty::VeryHard => 20,
    };
    let value = below(2);
    base + value
}

/// The intelligence that a puzzle of the given difficulty is made for.
pub fn map_difficulty_to_intelligence(difficulty: &EDifficulty) -> (intelligence:
    ESolvingIntelligence)
    ensures
        intelligence == tier_of(*difficulty),
{
    match *difficulty {
        EDifficulty::Easy => ESolvingIntelligence::SimpleLogic,
        EDifficulty::Medium => ESolvingIntelligence::ComplexLogic,
        EDifficulty::Hard => ESolvingIntelligence::ComplexLogic,
        EDifficulty::VeryHard => ESolvingIntelligence::WithGuessing,
    }
}

} // verus!
