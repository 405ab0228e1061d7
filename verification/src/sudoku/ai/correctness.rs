//! What the solver's runs come to: the board that is reached extends the
//! board that was given by digits only, a run that finishes ends on a
//! finished board, and a board that can be completed is never led astray.

use vstd::prelude::*;
use super::field::FieldView;
use super::solve_controller::{
    apply_from, deduce, guess_cell, guess_square, guessable, guessed, is_guess_cell, rank,
    solve_result, solved, solves, ESolvingIntelligence,
};
use super::soundness::{
    lemma_completion_is_solution, lemma_fields_sound, lemma_forced_sound, lemma_simple_fields_sound,
    lemma_unit_count, shaped,
};
use super::suggestion_controller::{
    cell_suggestions, forced, lemma_cell_suggestions, lemma_suggestions, lemma_suggestions_upto,
    suggested_square, suggestions, suggestions_upto, unit_count,
};
use super::super::game::{BoardView, Coordinate, EGameState, Square};
use super::super::game::grid::{
    clash, completes, conflict_at, empty_count, extends, has_conflict, holds, lemma_cell_in_unit,
    lemma_completion_no_conflict, lemma_completion_survives, lemma_fill_empty_cell,
    lemma_full_count, lemma_placement_keeps_peace, lemma_unit_cell_place, on_board, place_in_unit,
    related, same_column, same_row, same_unit, seen, solvable, state_after_add, state_of, unit_cell,
    unit_conflict, unit_of, valid_squares, EUnit,
};
use super::values::{ascending, digits_only, lemma_ascending_digits_len};
use super::virtual_board::{fields_of, lemma_candidates, lemma_fields_flags, simple_fields};

verus! {

/// `after` holds every square of `before`, and in the cells that `before`
/// leaves empty nothing but squares of the game with a digit.
pub open spec fn grown(after: Seq<Option<Square>>, before: Seq<Option<Square>>) -> bool {
    &&& extends(after, before)
    &&& forall|i: int|
        on_board(i) && before[i] is None ==> ((#[trigger] after[i]) matches Some(sq) ==> 1
            <= sq.value <= 9 && !sq.initial)
}

/// From the `k`-th on, the placements name positions of the board and hold
/// squares of the engine with a digit.
pub open spec fn well_formed_batch(batch: Seq<(Coordinate, Square)>, k: int) -> bool {
    forall|m: int|
        k <= m < batch.len() ==> (#[trigger] batch[m]).0.valid() && batch[m].1 == suggested_square(
            batch[m].1.value,
        ) && 1 <= batch[m].1.value <= 9
}

/// From the `k`-th on, the placements are those that `s` makes, into
/// cells that are empty, no two into the same cell.
pub open spec fn follows(
    batch: Seq<(Coordinate, Square)>,
    k: int,
    cells: Seq<Option<Square>>,
    s: Seq<u8>,
) -> bool {
    &&& forall|m: int|
        k <= m < batch.len() ==> s[(#[trigger] batch[m]).0.spec_index()] == batch[m].1.value
            && cells[batch[m].0.spec_index()] is None
    &&& forall|m1: int, m2: int|
        k <= m1 < m2 < batch.len() ==> (#[trigger] batch[m1]).0.spec_index() != (
        #[trigger] batch[m2]).0.spec_index()
}

/// One of the placements from the `k`-th on goes into cell `i`.
pub open spec fn named(batch: Seq<(Coordinate, Square)>, k: int, i: int) -> bool {
    exists|m: int| k <= m < batch.len() && (#[trigger] batch[m]).0.spec_index() == i
}

/// Growth goes on: what has grown from a grid that has grown has grown.
pub proof fn lemma_grown_transitive(
    a: Seq<Option<Square>>,
    b: Seq<Option<Square>>,
    c: Seq<Option<Square>>,
)
    requires
        grown(b, a),
        grown(c, b),
        a.len() == 81,
    ensures
        grown(c, a),
{
    assert forall|i: int| 0 <= i < a.len() && a[i] is Some implies #[trigger] c[i] == a[i] by {
        assert(b[i] == a[i]);
        assert(c[i] == b[i]);
    }
    assert forall|i: int| on_board(i) && a[i] is None implies ((#[trigger] c[i]) matches Some(sq) ==> 1
        <= sq.value <= 9 && !sq.initial) by {
        if b[i] is Some {
            assert(c[i] == b[i]);
        }
    }
}

/// A grid that has grown from a grid of digits is a grid of digits.
pub proof fn lemma_grown_valid(after: Seq<Option<Square>>, before: Seq<Option<Square>>)
    requires
        grown(after, before),
        valid_squares(before),
        before.len() == 81,
    ensures
        valid_squares(after),
{
    assert forall|i: int| on_board(i) implies ((#[trigger] after[i]) matches Some(s) ==> 1 <= s.value
        <= 9) by {
        if before[i] is Some {
            assert(after[i] == before[i]);
        }
    }
}

/// One square of the game in an empty cell of a board in play: the board
/// stays in order, and has grown.
pub proof fn lemma_filled_grown(b: BoardView, coord: Coordinate, square: Square)
    requires
        b.wf(),
        coord.valid(),
        b.cells[coord.spec_index()] is None,
        1 <= square.value <= 9,
        !square.initial,
    ensures
        b.filled(coord, square).wf(),
        grown(b.filled(coord, square).cells, b.cells),
        empty_count(b.filled(coord, square).cells) + 1 == empty_count(b.cells),
{
    let next = b.filled(coord, square);
    assert forall|k: int| 0 <= k < next.history.len() implies (#[trigger] next.history[k]).valid() by {
        if k < b.history.len() {
            assert(b.history[k].valid());
        }
    }
    lemma_fill_empty_cell(b.cells, coord.spec_index(), square);
}

/// On a grid without conflict, the state that a placement reports is the
/// state of the grid.
pub proof fn lemma_state_after_add(cells: Seq<Option<Square>>, i: int, square: Square)
    requires
        cells.len() == 81,
        on_board(i),
        cells[i] is None,
        !has_conflict(cells),
    ensures
        state_after_add(cells.update(i, Some(square)), i) == state_of(
            cells.update(i, Some(square)),
        ),
{
    let next = cells.update(i, Some(square));
    if !conflict_at(next, i) {
        lemma_placement_keeps_peace(cells, i, square);
    }
}

/// What placing a batch comes to. The board that is reached is in order and
/// has grown from the board before; the state that is reported, unless it
/// is `Conflict`, is the state of that board. Where the batch follows a
/// completion of the board, no conflict comes up, every placement is made
/// or the board is finished, and the completion completes the board that is
/// reached.
pub proof fn lemma_apply(b: BoardView, batch: Seq<(Coordinate, Square)>, k: int, s: Seq<u8>)
    requires
        b.wf(),
        b.initialized,
        !has_conflict(b.cells),
        0 <= k <= batch.len(),
        well_formed_batch(batch, k),
    ensures
        ({
            let (r, state) = apply_from(b, batch, k);
            &&& r.wf()
            &&& r.initialized
            &&& grown(r.cells, b.cells)
            &&& empty_count(r.cells) <= empty_count(b.cells)
            &&& state != EGameState::Conflict ==> !has_conflict(r.cells)
            &&& state == EGameState::Finished ==> state_of(r.cells) == EGameState::Finished
            &&& state == EGameState::Okay && k < batch.len() ==> state_of(r.cells)
                == EGameState::Okay
            &&& state == EGameState::Okay && k == batch.len() ==> r == b
            &&& state != EGameState::Conflict && k < batch.len() ==> empty_count(r.cells)
                < empty_count(b.cells)
            &&& forall|i: int|
                on_board(i) && (#[trigger] r.cells[i]) is Some ==> b.cells[i] is Some || named(
                    batch,
                    k,
                    i,
                )
            &&& completes(s, b.cells) && follows(batch, k, b.cells, s) ==> state
                != EGameState::Conflict && completes(s, r.cells)
        }),
    decreases batch.len() - k,
{
    if k < batch.len() {
        let coord = batch[k].0;
        let square = batch[k].1;
        let i = coord.spec_index();
        assert(batch[k].0.valid());
        if b.square_at(coord) is Some {
        } else {
            let next = b.filled(coord, square);
            lemma_filled_grown(b, coord, square);
            lemma_state_after_add(b.cells, i, square);
            let state = state_after_add(next.cells, i);
            if completes(s, b.cells) && follows(batch, k, b.cells, s) {
                lemma_completion_survives(s, b.cells, i, square);
                lemma_completion_no_conflict(s, next.cells);
            }
            assert forall|j: int| on_board(j) && (#[trigger] next.cells[j]) is Some implies b.cells[j] is Some
                || named(batch, k, j) by {
                if j == i {
                    assert(batch[k].0.spec_index() == j);
                }
            }
            if state == EGameState::Okay {
                lemma_placement_keeps_peace(b.cells, i, square);
                lemma_apply(next, batch, k + 1, s);
                let (r, last) = apply_from(next, batch, k + 1);
                lemma_grown_transitive(b.cells, next.cells, r.cells);
                assert forall|j: int| on_board(j) && (#[trigger] r.cells[j]) is Some implies b.cells[j] is Some
                    || named(batch, k, j) by {
                    if next.cells[j] is Some {
                        if j == i {
                            assert(batch[k].0.spec_index() == j);
                        }
                    } else {
                        assert(named(batch, k + 1, j));
                        let m = choose|m: int|
                            k + 1 <= m < batch.len() && (#[trigger] batch[m]).0.spec_index() == j;
                        assert(batch[m].0.spec_index() == j);
                    }
                }
                if completes(s, b.cells) && follows(batch, k, b.cells, s) {
                    assert(follows(batch, k + 1, next.cells, s)) by {
                        assert forall|m: int| k + 1 <= m < batch.len() implies s[(
                        #[trigger] batch[m]).0.spec_index()] == batch[m].1.value
                            && next.cells[batch[m].0.spec_index()] is None by {
                            assert(batch[k].0.spec_index() != batch[m].0.spec_index());
                        }
                    }
                }
            }
        }
    }
}

/// The suggestions of one cell name no placement twice.
pub proof fn lemma_cell_suggestions_distinct(fields: Seq<FieldView>, i: int, k: int)
    requires
        0 <= k <= fields[i].values.len(),
        ascending(fields[i].values),
    ensures
        cell_suggestions(fields, i, k).no_duplicates(),
    decreases k,
{
    if k > 0 {
        lemma_cell_suggestions_distinct(fields, i, k - 1);
        let rest = cell_suggestions(fields, i, k - 1);
        let all = cell_suggestions(fields, i, k);
        let v = fields[i].values[k - 1];
        let last = (Coordinate::spec_from_index(i), suggested_square(v));
        lemma_cell_suggestions(fields, i, k - 1, last);
        if rest.contains(last) {
            let t = fields[i].values.take(k - 1);
            let m = choose|m: int| 0 <= m < t.len() && t[m] == v;
            assert(fields[i].values[m] < fields[i].values[k - 1]);
        }
        assert forall|a: int, b: int| 0 <= a < all.len() && 0 <= b < all.len() && a != b implies all[a]
            != all[b] by {
            if a < rest.len() && b < rest.len() {
                assert(rest[a] != rest[b]);
            } else if a < rest.len() {
                assert(rest.contains(rest[a]));
            } else if b < rest.len() {
                assert(rest.contains(rest[b]));
            }
        }
    }
}

/// The suggestions name no placement twice.
pub proof fn lemma_suggestions_distinct(fields: Seq<FieldView>, n: int)
    requires
        0 <= n <= 81,
        shaped(fields),
    ensures
        suggestions_upto(fields, n).no_duplicates(),
    decreases n,
{
    if n > 0 {
        lemma_suggestions_distinct(fields, n - 1);
        let before = suggestions_upto(fields, n - 1);
        let here = cell_suggestions(fields, n - 1, fields[n - 1].values.len() as int);
        let all = suggestions_upto(fields, n);
        assert(ascending(fields[n - 1].values));
        lemma_cell_suggestions_distinct(fields, n - 1, fields[n - 1].values.len() as int);
        Coordinate::lemma_index_roundtrip(n - 1);
        assert forall|a: int, b: int| 0 <= a < all.len() && 0 <= b < all.len() && a != b implies all[a]
            != all[b] by {
            if a < before.len() && b < before.len() {
                assert(before[a] != before[b]);
            } else if a >= before.len() && b >= before.len() {
                assert(here[a - before.len()] != here[b - before.len()]);
            } else {
                let (lo, hi) = if a < before.len() {
                    (a, b)
                } else {
                    (b, a)
                };
                assert(before.contains(before[lo]));
                assert(here.contains(here[hi - before.len()]));
                lemma_suggestions_upto(fields, n - 1, before[lo]);
                lemma_cell_suggestions(
                    fields,
                    n - 1,
                    fields[n - 1].values.len() as int,
                    here[hi - before.len()],
                );
            }
        }
    }
}

/// The suggestions that a board gives rise to name positions of the board
/// and hold squares of the engine with a digit; and where the board has a
/// completion and holds digits only, they are placements that the
/// completion makes, into empty cells, no two into the same.
pub proof fn lemma_batch(cells: Seq<Option<Square>>, intelligence: ESolvingIntelligence, s: Seq<u8>)
    requires
        cells.len() == 81,
    ensures
        well_formed_batch(suggestions(fields_of(cells, intelligence)), 0),
        forall|m: int|
            0 <= m < suggestions(fields_of(cells, intelligence)).len() ==> cells[(
            #[trigger] suggestions(fields_of(cells, intelligence))[m]).0.spec_index()] is None,
        completes(s, cells) && valid_squares(cells) ==> follows(
            suggestions(fields_of(cells, intelligence)),
            0,
            cells,
            s,
        ),
{
    let fields = fields_of(cells, intelligence);
    let batch = suggestions(fields);
    lemma_fields_sound(cells, intelligence, s);
    lemma_suggestions_distinct(fields, 81);
    assert forall|m: int| 0 <= m < batch.len() implies (#[trigger] batch[m]).0.valid() && batch[m].1
        == suggested_square(batch[m].1.value) && 1 <= batch[m].1.value <= 9 && cells[batch[m].0.spec_index()] is None by {
        assert(batch.contains(batch[m]));
        lemma_suggestions(fields, batch[m]);
        let i = batch[m].0.spec_index();
        let v = batch[m].1.value;
        lemma_fields_flags(cells, intelligence, i);
        assert(digits_only(fields[i].values));
        let at = choose|at: int| 0 <= at < fields[i].values.len() && fields[i].values[at] == v;
        assert(1 <= fields[i].values[at] <= 9);
    }
    if completes(s, cells) && valid_squares(cells) {
        lemma_completion_is_solution(s, cells);
        assert forall|m: int| 0 <= m < batch.len() implies s[(#[trigger] batch[m]).0.spec_index()]
            == batch[m].1.value && cells[batch[m].0.spec_index()] is None by {
            assert(batch.contains(batch[m]));
            lemma_suggestions(fields, batch[m]);
            lemma_forced_sound(fields, batch[m].0.spec_index(), batch[m].1.value, s);
        }
        assert forall|m1: int, m2: int| 0 <= m1 < m2 < batch.len() implies (
        #[trigger] batch[m1]).0.spec_index() != (#[trigger] batch[m2]).0.spec_index() by {
            if batch[m1].0.spec_index() == batch[m2].0.spec_index() {
                assert(batch[m1].0.valid() && batch[m2].0.valid());
                assert(batch[m1].0 == batch[m2].0);
                assert(batch[m1].1 == batch[m2].1);
                assert(batch[m1] == batch[m2]);
            }
        }
    }
}

/// What deduction comes to on an open board in play. The board that is
/// reached is in order and has grown from the board before; the state that
/// is reported, unless it is `Conflict`, is the state of that board, and
/// where it is `Okay` the board gives rise to no suggestion. Where the
/// board holds digits only and has a completion, no conflict comes up, and
/// the completion completes the board that is reached.
pub proof fn lemma_deduce(b: BoardView, intelligence: ESolvingIntelligence, s: Seq<u8>)
    requires
        b.wf(),
        b.initialized,
        state_of(b.cells) == EGameState::Okay,
    ensures
        ({
            let (r, state) = deduce(b, intelligence);
            &&& r.wf()
            &&& r.initialized
            &&& grown(r.cells, b.cells)
            &&& empty_count(r.cells) <= empty_count(b.cells)
            &&& state != EGameState::Conflict ==> state_of(r.cells) == state
            &&& state == EGameState::Okay ==> suggestions(fields_of(r.cells, intelligence)).len()
                == 0
            &&& completes(s, b.cells) && valid_squares(b.cells) ==> state != EGameState::Conflict
                && completes(s, r.cells)
        }),
    decreases empty_count(b.cells),
{
    let batch = suggestions(fields_of(b.cells, intelligence));
    if batch.len() == 0 {
        assert(b.cells.len() == 81);
        assert forall|i: int| 0 <= i < b.cells.len() && b.cells[i] is Some implies #[trigger] b.cells[i]
            == b.cells[i] by {}
    } else {
        lemma_batch(b.cells, intelligence, s);
        lemma_apply(b, batch, 0, s);
        let (next, state) = apply_from(b, batch, 0);
        if state == EGameState::Okay && empty_count(next.cells) < empty_count(b.cells) {
            lemma_deduce(next, intelligence, s);
            let (r, last) = deduce(next, intelligence);
            lemma_grown_transitive(b.cells, next.cells, r.cells);
            if completes(s, b.cells) && valid_squares(b.cells) {
                lemma_grown_valid(next.cells, b.cells);
            }
        }
    }
}

/// Among the cells that can be guessed at, if there is any, one comes
/// first.
pub proof fn lemma_guess_cell_exists(fields: Seq<FieldView>, e: int)
    requires
        on_board(e),
        guessable(fields, e),
    ensures
        exists|i: int| is_guess_cell(fields, i),
    decreases fields[e].values.len() * 81 + e,
{
    if !is_guess_cell(fields, e) {
        let j = choose|j: int|
            on_board(j) && #[trigger] guessable(fields, j) && !(fields[e].values.len()
                < fields[j].values.len() || (fields[e].values.len() == fields[j].values.len() && e
                <= j));
        lemma_guess_cell_exists(fields, j);
    }
}

/// A board that is stuck although it has a completion has a cell to guess
/// at.
pub proof fn lemma_stuck_can_guess(
    cells: Seq<Option<Square>>,
    intelligence: ESolvingIntelligence,
    s: Seq<u8>,
)
    requires
        cells.len() == 81,
        completes(s, cells),
        valid_squares(cells),
        state_of(cells) == EGameState::Okay,
        suggestions(fields_of(cells, intelligence)).len() == 0,
    ensures
        guess_cell(fields_of(cells, intelligence)) is Some,
{
    let fields = fields_of(cells, intelligence);
    lemma_full_count(cells);
    let e = choose|e: int| on_board(e) && !((#[trigger] cells[e]) is Some);
    lemma_fields_sound(cells, intelligence, s);
    lemma_fields_flags(cells, intelligence, e);
    lemma_ascending_digits_len(fields[e].values);
    assert(fields[e].values.contains(s[e]));
    if fields[e].values.len() == 1 {
        let placement = (Coordinate::spec_from_index(e), suggested_square(s[e]));
        Coordinate::lemma_index_roundtrip(e);
        assert(forced(fields, e, s[e]));
        lemma_suggestions(fields, placement);
        assert(suggestions(fields).contains(placement));
    }
    assert(guessable(fields, e));
    lemma_guess_cell_exists(fields, e);
}

/// What solving a board in play comes to. A board that comes back is in
/// order, has grown from the board that was given and is finished or, below
/// `WithGuessing`, open. A board of digits that has a completion does come
/// back.
pub proof fn lemma_solved(b: BoardView, intelligence: ESolvingIntelligence, s: Seq<u8>)
    requires
        b.wf(),
        b.initialized,
    ensures
        solved(b, intelligence) matches Some(r) ==> r.wf() && r.initialized && grown(
            r.cells,
            b.cells,
        ) && (state_of(r.cells) == EGameState::Finished || (intelligence
            != ESolvingIntelligence::WithGuessing && state_of(r.cells) == EGameState::Okay)),
        completes(s, b.cells) && valid_squares(b.cells) ==> solved(b, intelligence) is Some,
    decreases empty_count(b.cells), 1int, 0int,
{
    assert(grown(b.cells, b.cells));
    if completes(s, b.cells) {
        lemma_completion_no_conflict(s, b.cells);
    }
    if state_of(b.cells) == EGameState::Okay {
        lemma_deduce(b, intelligence, s);
        let (reached, state) = deduce(b, intelligence);
        if state == EGameState::Okay && intelligence == ESolvingIntelligence::WithGuessing {
            let fields = fields_of(reached.cells, intelligence);
            if completes(s, b.cells) && valid_squares(b.cells) {
                lemma_grown_valid(reached.cells, b.cells);
                lemma_stuck_can_guess(reached.cells, intelligence, s);
            }
            if guess_cell(fields) is Some {
                let i = guess_cell(fields)->0;
                assert(is_guess_cell(fields, i));
                lemma_fields_flags(reached.cells, intelligence, i);
                lemma_fields_sound(reached.cells, intelligence, s);
                lemma_guessed(reached, intelligence, i, fields[i].values, 0, s);
                if completes(s, b.cells) && valid_squares(b.cells) {
                    assert(fields[i].values.contains(s[i]));
                    let p = choose|p: int| 0 <= p < fields[i].values.len() && fields[i].values[p] == s[i];
                    assert(0 <= p < fields[i].values.len() && fields[i].values[p] == s[i]);
                }
                let result = guessed(reached, intelligence, i, fields[i].values, 0);
                if result is Some {
                    lemma_grown_transitive(b.cells, reached.cells, result->0.cells);
                }
            }
        }
    }
}

/// What trying the values of a cell comes to. A board that comes back is in
/// order, has grown from the board that was given and is finished. On a
/// board of digits that has a completion, a board does come back if the
/// value that the completion has in the cell is still to be tried.
pub proof fn lemma_guessed(
    b: BoardView,
    intelligence: ESolvingIntelligence,
    i: int,
    values: Seq<u8>,
    k: int,
    s: Seq<u8>,
)
    requires
        b.wf(),
        b.initialized,
        !has_conflict(b.cells),
        intelligence == ESolvingIntelligence::WithGuessing,
        on_board(i),
        b.cells[i] is None,
        digits_only(values),
        0 <= k <= values.len(),
    ensures
        guessed(b, intelligence, i, values, k) matches Some(r) ==> r.wf() && r.initialized && grown(
            r.cells,
            b.cells,
        ) && state_of(r.cells) == EGameState::Finished,
        completes(s, b.cells) && valid_squares(b.cells) && (exists|p: int|
            k <= p < values.len() && values[p] == s[i]) ==> guessed(b, intelligence, i, values, k)
            is Some,
    decreases empty_count(b.cells), 0int, values.len() - k,
{
    if k < values.len() {
        let v = values[k];
        let coord = Coordinate::spec_from_index(i);
        Coordinate::lemma_index_roundtrip(i);
        let square = guess_square(v);
        let next = b.filled(coord, square);
        assert(1 <= values[k] <= 9);
        lemma_filled_grown(b, coord, square);
        lemma_state_after_add(b.cells, i, square);
        let state = state_after_add(next.cells, i);
        let hit = completes(s, b.cells) && valid_squares(b.cells) && s[i] == v;
        if hit {
            lemma_completion_survives(s, b.cells, i, square);
            lemma_completion_no_conflict(s, next.cells);
            lemma_grown_valid(next.cells, b.cells);
        }
        if completes(s, b.cells) && valid_squares(b.cells) && (exists|p: int|
            k <= p < values.len() && values[p] == s[i]) && !hit {
            let p = choose|p: int| k <= p < values.len() && values[p] == s[i];
            assert(k + 1 <= p < values.len() && values[p] == s[i]);
        }
        match state {
            EGameState::Conflict => {
                lemma_guessed(b, intelligence, i, values, k + 1, s);
            },
            EGameState::Finished => {},
            EGameState::Okay => {
                lemma_solved(next, intelligence, s);
                if solved(next, intelligence) is Some {
                    lemma_grown_transitive(b.cells, next.cells, solved(next, intelligence)->0.cells);
                } else {
                    lemma_guessed(b, intelligence, i, values, k + 1, s);
                }
            },
        }
    }
}

/// Every cell that `small` fills, `large` fills too.
pub open spec fn covers(large: Seq<Option<Square>>, small: Seq<Option<Square>>) -> bool {
    forall|i: int| on_board(i) && (#[trigger] small[i]) is Some ==> large[i] is Some
}

/// The values of the squares of a full grid.
pub open spec fn values_of(cells: Seq<Option<Square>>) -> Seq<u8> {
    Seq::new(81, |i: int| cells[i]->0.value)
}

/// A finished grid that has grown from a grid holds a completion of that
/// grid.
pub proof fn lemma_finished_is_completion(after: Seq<Option<Square>>, before: Seq<Option<Square>>)
    requires
        before.len() == 81,
        grown(after, before),
        state_of(after) == EGameState::Finished,
    ensures
        completes(values_of(after), before),
        completes(values_of(after), after),
{
    let s = values_of(after);
    lemma_full_count(after);
    assert forall|i: int, j: int|
        on_board(i) && on_board(j) && i != j && #[trigger] related(i, j) implies s[i] != s[j] by {
        if s[i] == s[j] {
            assert(after[i] is Some && after[j] is Some);
            assert(clash(after, i, j));
            let kind = if same_row(i, j) {
                EUnit::Row
            } else if same_column(i, j) {
                EUnit::Column
            } else {
                EUnit::Quadrant
            };
            assert(same_unit(kind, i, j));
            assert(unit_conflict(after, kind, i));
            assert(conflict_at(after, i));
        }
    }
    assert forall|i: int| on_board(i) && before[i] is Some implies before[i]->0.value == #[trigger] s[i] by {
        assert(after[i] == before[i]);
    }
    assert forall|i: int| on_board(i) && before[i] is None implies 1 <= #[trigger] s[i] <= 9 by {
        assert(after[i] is Some);
    }
}

/// Fields that lie within others count a value in a unit no more often.
pub proof fn lemma_unit_count_within(
    narrow: Seq<FieldView>,
    wide: Seq<FieldView>,
    kind: EUnit,
    n: int,
    v: u8,
    k: int,
)
    requires
        0 <= n < 9,
        0 <= k <= 9,
        forall|i: int, x: u8|
            on_board(i) && #[trigger] narrow[i].values.contains(x) ==> wide[i].values.contains(x),
    ensures
        unit_count(narrow, kind, n, v, k)
            <= unit_count(wide, kind, n, v, k),
    decreases k,
{
    if k > 0 {
        lemma_unit_count_within(narrow, wide, kind, n, v, k - 1);
        lemma_unit_cell_place(kind, n, k - 1);
        let j = unit_cell(kind, n, k - 1);
        if narrow[j].values.contains(v) {
            assert(wide[j].values.contains(v));
        }
    }
}

/// The fields of a board lie within the simple fields of every board that
/// it covers, where one completion completes both.
pub proof fn lemma_fields_within_smaller(
    small: Seq<Option<Square>>,
    large: Seq<Option<Square>>,
    intelligence: ESolvingIntelligence,
    s: Seq<u8>,
    j: int,
    x: u8,
)
    requires
        small.len() == 81,
        large.len() == 81,
        completes(s, small),
        completes(s, large),
        covers(large, small),
        on_board(j),
        fields_of(large, intelligence)[j].values.contains(x),
    ensures
        simple_fields(small)[j].values.contains(x),
{
    lemma_fields_sound(large, intelligence, s);
    lemma_simple_fields_sound(small, s);
    let narrow = fields_of(large, intelligence);
    let middle = simple_fields(large);
    assert(narrow[j].values.contains(x));
    assert(middle[j].values.contains(x));
    if large[j] is Some {
        assert(middle[j].values =~= seq![large[j]->0.value]);
        let at = choose|at: int| 0 <= at < middle[j].values.len() && middle[j].values[at] == x;
        assert(x == s[j]);
    } else {
        assert(small[j] is None);
        lemma_candidates(large, j);
        lemma_candidates(small, j);
        if seen(small, j, x) {
            let c = choose|c: int|
                on_board(c) && related(j, c) && #[trigger] holds(
                    small,
                    c,
                    x,
                );
            assert(large[c] is Some);
            assert(large[c]->0.value == s[c]);
            assert(small[c]->0.value == s[c]);
            assert(holds(large, c, x));
        }
    }
}

/// A placement that the simple fields of a board force is forced still, at
/// any intelligence, on every board that covers it and leaves the cell
/// empty, where one completion completes both boards.
pub proof fn lemma_forced_persists(
    small: Seq<Option<Square>>,
    large: Seq<Option<Square>>,
    intelligence: ESolvingIntelligence,
    s: Seq<u8>,
    i: int,
    v: u8,
)
    requires
        small.len() == 81,
        large.len() == 81,
        completes(s, small),
        completes(s, large),
        valid_squares(small),
        valid_squares(large),
        covers(large, small),
        on_board(i),
        large[i] is None,
        forced(simple_fields(small), i, v),
    ensures
        forced(fields_of(large, intelligence), i, v),
{
    let wide = simple_fields(small);
    let narrow = fields_of(large, intelligence);
    lemma_completion_is_solution(s, small);
    lemma_fields_sound(small, ESolvingIntelligence::SimpleLogic, s);
    lemma_fields_sound(large, intelligence, s);
    lemma_forced_sound(wide, i, v, s);
    lemma_fields_flags(large, intelligence, i);
    assert(narrow[i].values.contains(s[i]));
    assert forall|j: int, x: u8|
        on_board(j) && #[trigger] narrow[j].values.contains(x) implies wide[j].values.contains(x) by {
        lemma_fields_within_smaller(small, large, intelligence, s, j, x);
    }
    if wide[i].values.len() == 1 {
        let values = narrow[i].values;
        assert(ascending(values));
        if values.len() >= 2 {
            assert(values.contains(values[0]));
            assert(values.contains(values[1]));
            assert(wide[i].values.contains(values[0]));
            assert(wide[i].values.contains(values[1]));
            let a = choose|a: int| 0 <= a < wide[i].values.len() && wide[i].values[a] == values[0];
            let b = choose|b: int| 0 <= b < wide[i].values.len() && wide[i].values[b] == values[1];
            assert(values[0] < values[1]);
        }
        if values.len() == 0 {
            let a = choose|a: int| 0 <= a < values.len() && values[a] == s[i];
        }
    } else {
        let kind = if unit_count(
            wide,
            EUnit::Row,
            unit_of(EUnit::Row, i),
            v,
            9,
        ) == 1 {
            EUnit::Row
        } else if unit_count(
            wide,
            EUnit::Column,
            unit_of(EUnit::Column, i),
            v,
            9,
        ) == 1 {
            EUnit::Column
        } else {
            EUnit::Quadrant
        };
        let n = unit_of(kind, i);
        lemma_cell_in_unit(kind, i);
        lemma_unit_count_within(narrow, wide, kind, n, v, 9);
        lemma_unit_count(narrow, kind, n, v, 9);
        let q = place_in_unit(kind, i);
        assert(narrow[unit_cell(kind, n, q)].values.contains(v));
        assert(unit_count(narrow, kind, n, v, 9) == 1);
    }
}

/// Where simple logic finishes a board, no board that covers it, has the
/// same completion and is still open is without a suggestion, at any
/// intelligence.
pub proof fn lemma_simple_progress(
    x: BoardView,
    large: Seq<Option<Square>>,
    intelligence: ESolvingIntelligence,
    s: Seq<u8>,
)
    requires
        x.wf(),
        x.initialized,
        large.len() == 81,
        state_of(x.cells) == EGameState::Okay,
        state_of(large) == EGameState::Okay,
        completes(s, x.cells),
        completes(s, large),
        valid_squares(x.cells),
        valid_squares(large),
        covers(large, x.cells),
        deduce(x, ESolvingIntelligence::SimpleLogic).1 == EGameState::Finished,
    ensures
        suggestions(fields_of(large, intelligence)).len() > 0,
    decreases empty_count(x.cells),
{
    let simple = ESolvingIntelligence::SimpleLogic;
    let batch = suggestions(fields_of(x.cells, simple));
    lemma_batch(x.cells, simple, s);
    lemma_apply(x, batch, 0, s);
    let (next, state) = apply_from(x, batch, 0);
    if exists|m: int| 0 <= m < batch.len() && large[(#[trigger] batch[m]).0.spec_index()] is None {
        let m = choose|m: int|
            0 <= m < batch.len() && large[(#[trigger] batch[m]).0.spec_index()] is None;
        assert(batch.contains(batch[m]));
        lemma_suggestions(fields_of(x.cells, simple), batch[m]);
        lemma_forced_persists(
            x.cells,
            large,
            intelligence,
            s,
            batch[m].0.spec_index(),
            batch[m].1.value,
        );
        lemma_suggestions(fields_of(large, intelligence), batch[m]);
        assert(suggestions(fields_of(large, intelligence)).contains(batch[m]));
    } else {
        assert forall|i: int| on_board(i) && (#[trigger] next.cells[i]) is Some implies large[i] is Some by {
            if x.cells[i] is None {
                assert(named(batch, 0, i));
                let m = choose|m: int| 0 <= m < batch.len() && (#[trigger] batch[m]).0.spec_index() == i;
                assert(!(large[batch[m].0.spec_index()] is None));
            }
        }
        lemma_full_count(next.cells);
        lemma_full_count(large);
        lemma_completion_no_conflict(s, large);
        if state == EGameState::Okay {
            lemma_grown_valid(next.cells, x.cells);
            lemma_simple_progress(next, large, intelligence, s);
        } else {
            assert(state == EGameState::Finished);
            assert forall|i: int| on_board(i) implies (#[trigger] large[i]) is Some by {
                assert(next.cells[i] is Some);
            }
        }
    }
}

/// What a solver of one intelligence finishes, a solver of every higher
/// intelligence finishes too.
pub proof fn lemma_solved_by_stronger(
    b: BoardView,
    weak: ESolvingIntelligence,
    strong: ESolvingIntelligence,
)
    requires
        b.wf(),
        valid_squares(b.cells),
        rank(weak) <= rank(strong),
        solves(b, weak),
    ensures
        solves(b, strong),
{
    let start = BoardView { initialized: true, ..b };
    let r = solved(start, weak)->0;
    let s = values_of(r.cells);
    lemma_solved(start, weak, s);
    lemma_finished_is_completion(r.cells, start.cells);
    lemma_solved(start, strong, s);
    if strong != ESolvingIntelligence::WithGuessing && state_of(start.cells) == EGameState::Okay {
        lemma_deduce(start, strong, s);
        let (reached, state) = deduce(start, strong);
        if state == EGameState::Okay {
            if weak == ESolvingIntelligence::SimpleLogic {
                lemma_deduce(start, weak, s);
                lemma_grown_valid(reached.cells, start.cells);
                assert(covers(reached.cells, start.cells)) by {
                    assert forall|i: int| on_board(i) && (#[trigger] start.cells[i]) is Some implies reached.cells[i] is Some by {
                        assert(reached.cells[i] == start.cells[i]);
                    }
                }
                lemma_simple_progress(start, reached.cells, strong, s);
            }
        }
    }
}

/// With guessing, the solver finishes exactly the boards that can be
/// completed; and what any solver finishes can be completed.
pub proof fn lemma_guessing_is_complete(b: BoardView, intelligence: ESolvingIntelligence)
    requires
        b.wf(),
        valid_squares(b.cells),
    ensures
        solves(b, ESolvingIntelligence::WithGuessing)
            <==> solvable(b.cells),
        solves(b, intelligence) ==> solvable(
            b.cells,
        ),
        solvable(b.cells) ==> solve_result(
            b,
            intelligence,
        ) is Some,
{
    let start = BoardView { initialized: true, ..b };
    let s0 = values_of(b.cells);
    lemma_solved(start, intelligence, s0);
    lemma_solved(start, ESolvingIntelligence::WithGuessing, s0);
    if solves(b, intelligence) {
        let r = solved(start, intelligence)->0;
        lemma_finished_is_completion(r.cells, start.cells);
    }
    if solves(b, ESolvingIntelligence::WithGuessing) {
        let r = solved(start, ESolvingIntelligence::WithGuessing)->0;
        lemma_finished_is_completion(r.cells, start.cells);
    }
    if solvable(b.cells) {
        let s = choose|s: Seq<u8>| completes(s, b.cells);
        lemma_solved(start, ESolvingIntelligence::WithGuessing, s);
        lemma_solved(start, intelligence, s);
    }
}

} // verus!
