use vstd::prelude::*;
use super::random::{lemma_permutation, shuffle};
use super::super::ai::values::{all_digits, digits_only};
use super::super::ai::virtual_board::{candidates, candidates_upto, lemma_candidates};
use super::super::game::{Board, BoardView, Coordinate, EError, EGameState, Square};
use super::super::game::grid::{
    clash, completes, conflict_at, empty_grid, extends, filled_count, has_conflict, holds,
    lemma_cell_in_unit, lemma_clash_symmetric, lemma_completion_no_conflict,
    lemma_completion_survives, lemma_completion_value_unseen, lemma_empty_grid_solvable,
    lemma_fill_empty_cell, lemma_first_row_solvable, lemma_full_count, lemma_placement_keeps_peace,
    lemma_same_unit, lemma_seen_by_units, lemma_unit_cell_place, lemma_unit_values_seen, on_board,
    place_in_unit, renamed_pattern, same_unit, seen, seen_in_unit, solvable, unit_cell,
    unit_conflict, unit_of, valid_squares, EUnit,
};
use super::super::game::rule::{
    cell_of_unit, unit_number, HorizontalUniqueRule, QuadrantUniqueRule, VerticalUniqueRule,
};

verus! {

/// The square of the puzzle with value `v`.
pub open spec fn initial_square(v: u8) -> Square {
    Square { value: v, initial: true, conflict: false, generated: false, guessed: false }
}

/// The grid whose first cells, in row-major order, hold squares of the
/// puzzle with the given values, and whose other cells are empty.
pub open spec fn prefix_cells(values: Seq<u8>) -> Seq<Option<Square>> {
    Seq::new(
        81,
        |i: int|
            if i < values.len() {
                Some(initial_square(values[i]))
            } else {
                None
            },
    )
}

/// Exactly the first `n` cells of the grid are filled, with squares of the
/// puzzle.
pub open spec fn filled_before(cells: Seq<Option<Square>>, n: int) -> bool {
    &&& cells.len() == 81
    &&& forall|j: int| 0 <= j < n && j < 81 ==> (#[trigger] cells[j] matches Some(s) && s.initial)
    &&& forall|j: int| n <= j < 81 ==> (#[trigger] cells[j]) is None
}

/// A completed board: every cell holds a square of the puzzle, and no rule
/// is broken.
pub open spec fn completed(b: BoardView) -> bool {
    &&& b.wf()
    &&& !b.initialized
    &&& filled_before(b.cells, 81)
    &&& filled_count(b.cells) == 81
    &&& valid_squares(b.cells)
    &&& !has_conflict(b.cells)
}

/// No completion of the grid has value `v` in cell `i`.
pub open spec fn excluded(cells: Seq<Option<Square>>, i: int, v: u8) -> bool {
    forall|s: Seq<u8>| #[trigger] completes(s, cells) ==> s[i] != v
}

/// Generates completed boards on a flat vector of values.
pub struct FastestGenerator {}

impl FastestGenerator {
    /// A completed board, drawn at random.
    pub fn generate_board() -> (board: Board)
        ensures
            board.wf(),
            completed(board@),
            board@.history.len() == 0,
    {
        let mut init = init_new_data();
        proof {
            lemma_permutation(init@, all_digits());
            assert forall|k: int| 0 <= k < 9 implies 1 <= #[trigger] init@[k] <= 9 by {
                assert(init@.contains(init@[k]));
                let m = choose|m: int| 0 <= m < 9 && all_digits()[m] == init@[k];
            }
            lemma_first_row_solvable(init@, prefix_cells(init@));
            lemma_completion_no_conflict(
                renamed_pattern(init@),
                prefix_cells(init@),
            );
        }
        assert(digits_only(init@));
        let result = iterate_add(&mut init);
        assert(result is Ok);
        let board = Board::from_vec(map_to_board_data(&init));
        proof {
            assert(board@.cells =~= prefix_cells(init@));
            lemma_full_count(board@.cells);
        }
        board
    }
}

/// Generates completed boards by placing squares on a board.
pub struct BackTraceGenerator {}

impl BackTraceGenerator {
    /// A completed board, drawn at random.
    pub fn generate_board() -> (board: Board)
        ensures
            board.wf(),
            completed(board@),
            board@.history.len() == 0,
    {
        match generate_completed_board_backtrace() {
            Ok(board) => board,
            Err(_) => {
                proof {
                    lemma_empty_grid_solvable();
                }
                unreached()
            },
        }
    }
}

/// Fills an empty board cell by cell. The search runs through every value
/// that the rules admit, so it only gives up where no completed board
/// exists: never.
pub fn generate_completed_board_backtrace() -> (result: Result<Board, EError>)
    ensures
        match result {
            Ok(board) => board.wf() && completed(board@) && board@.history.len() == 0,
            Err(e) => e == EError::NotSolvable && !solvable(empty_grid()),
        },
{
    let mut board = Board::new();
    proof {
        assert(board@.cells =~= empty_grid());
        lemma_empty_grid_solvable();
        let s = choose|s: Seq<u8>| completes(s, empty_grid());
        lemma_completion_no_conflict(s, empty_grid());
    }
    match do_fill_with_backtrace(&mut board, Coordinate::new(1, 1)) {
        Ok(()) => {
            proof {
                lemma_full_count(board@.cells);
            }
            Ok(board)
        },
        Err(e) => Err(e),
    }
}

/// Fills the cells from `coord` on, in row-major order, on a board whose
/// cells before `coord` are filled. Each value that the rules admit at
/// `coord` is tried, in a random order. `NotSolvable` comes back, with the
/// board as it was, exactly where the board has no completion.
pub fn do_fill_with_backtrace(board: &mut Board, coord: Coordinate) -> (result: Result<(), EError>)
    requires
        old(board).wf(),
        !old(board)@.initialized,
        coord.valid(),
        filled_before(old(board)@.cells, coord.spec_index()),
        !has_conflict(old(board)@.cells),
    ensures
        final(board).wf(),
        final(board)@.history == old(board)@.history,
        final(board)@.initialized == old(board)@.initialized,
        match result {
            Ok(()) => filled_before(final(board)@.cells, 81) && !has_conflict(final(board)@.cells)
                && extends(final(board)@.cells, old(board)@.cells) && (valid_squares(
                old(board)@.cells,
            ) ==> valid_squares(final(board)@.cells)),
            Err(e) => e == EError::NotSolvable && final(board)@ == old(board)@ && !solvable(
                old(board)@.cells,
            ),
        },
    decreases 81 - coord.spec_index(),
{
    let ghost start = board@;
    let ghost i = coord.spec_index();
    let set: Vec<u8> = get_shuffled_values(board, &coord);
    proof {
        lemma_permutation(set@, candidates(start.cells, i));
        lemma_candidates(start.cells, i);
    }
    let mut k: usize = 0;
    while k < set.len()
        invariant
            k <= set@.len(),
            board.wf(),
            board@ == start,
            start == old(board)@,
            !start.initialized,
            coord.valid(),
            i == coord.spec_index(),
            filled_before(start.cells, i),
            !has_conflict(start.cells),
            forall|x: u8| set@.contains(x) <==> (1 <= x <= 9 && !seen(start.cells, i, x)),
            forall|k2: int| 0 <= k2 < k ==> excluded(start.cells, i, #[trigger] set@[k2]),
        decreases set@.len() - k,
    {
        let value = set[k];
        let ghost next = start.cells.update(i, Some(initial_square(value)));
        proof {
            lemma_fill_empty_cell(start.cells, i, initial_square(value));
            lemma_full_count(next);
            assert(set@.contains(value));
            if valid_squares(start.cells) {
                assert forall|j: int| on_board(j) implies ((#[trigger] next[j]) matches Some(s) ==> 1
                    <= s.value <= 9) by {
                    if j != i {
                        assert(start.cells[j] == next[j]);
                    }
                }
            }
        }
        let state = match board.fill_square(coord, Square::new(value, true)) {
            Ok(state) => state,
            Err(_) => unreached(),
        };
        match state {
            EGameState::Finished => {
                proof {
                    lemma_placement_keeps_peace(start.cells, i, initial_square(value));
                }
                return Ok(());
            },
            EGameState::Conflict => {
                board.delete_force(&coord);
                proof {
                    assert(board@.cells =~= start.cells);
                    assert forall|s: Seq<u8>| #[trigger] completes(s, start.cells) implies s[i]
                        != value by {
                        if s[i] == value {
                            lemma_completion_survives(s, start.cells, i, initial_square(value));
                            lemma_completion_no_conflict(s, next);
                        }
                    }
                }
            },
            EGameState::Okay => {
                proof {
                    lemma_placement_keeps_peace(start.cells, i, initial_square(value));
                    if i == 80 {
                        assert forall|j: int| on_board(j) implies (#[trigger] next[j]) is Some by {}
                    }
                }
                match get_next_coordinate(&coord) {
                    None => {
                        return Ok(());
                    },
                    Some(c) => {
                        match do_fill_with_backtrace(board, c) {
                            Ok(()) => {
                                return Ok(());
                            },
                            Err(_) => {
                                board.delete_force(&coord);
                                proof {
                                    assert(board@.cells =~= start.cells);
                                    assert forall|s: Seq<u8>| #[trigger]
                                        completes(s, start.cells) implies s[i] != value by {
                                        if s[i] == value {
                                            lemma_completion_survives(
                                                s,
                                                start.cells,
                                                i,
                                                initial_square(value),
                                            );
                                        }
                                    }
                                }
                            },
                        }
                    },
                }
            },
        }
        k += 1;
    }
    proof {
        assert forall|s: Seq<u8>| !#[trigger] completes(s, start.cells) by {
            if completes(s, start.cells) {
                lemma_completion_value_unseen(s, start.cells, i);
                assert(set@.contains(s[i]));
                let k2 = choose|k2: int| 0 <= k2 < set@.len() && set@[k2] == s[i];
                assert(excluded(start.cells, i, set@[k2]));
            }
        }
    }
    Err(EError::NotSolvable)
}

/// `values` holds `x`.
fn contains_value(values: &Vec<u8>, x: u8) -> (found: bool)
    ensures
        found == values@.contains(x),
{
    let mut i: usize = 0;
    while i < values.len()
        invariant
            i <= values@.len(),
            forall|j: int| 0 <= j < i ==> values@[j] != x,
        decreases values@.len() - i,
    {
        if values[i] == x {
            return true;
        }
        i += 1;
    }
    false
}

/// The digits that the rules admit at `coordinate`, in a random order.
pub fn get_shuffled_values(board: &Board, coordinate: &Coordinate) -> (values: Vec<u8>)
    requires
        board.wf(),
        coordinate.valid(),
    ensures
        values@.to_multiset() == candidates(board@.cells, coordinate.spec_index()).to_multiset(),
{
    let ghost cells = board@.cells;
    let ghost i = coordinate.spec_index();
    let mut forbidden_values = HorizontalUniqueRule::get_forbidden_values(board, coordinate);
    let mut column_values = VerticalUniqueRule::get_forbidden_values(board, coordinate);
    let mut quadrant_values = QuadrantUniqueRule::get_forbidden_values(board, coordinate);
    let ghost rows = forbidden_values@;
    let ghost columns = column_values@;
    let ghost quadrants = quadrant_values@;
    forbidden_values.append(&mut column_values);
    forbidden_values.append(&mut quadrant_values);
    proof {
        assert forall|x: u8| forbidden_values@.contains(x) <==> seen(cells, i, x) by {
            lemma_unit_values_seen(cells, EUnit::Row, i, x);
            lemma_unit_values_seen(cells, EUnit::Column, i, x);
            lemma_unit_values_seen(cells, EUnit::Quadrant, i, x);
            lemma_seen_by_units(cells, i, x);
            let all = forbidden_values@;
            assert(all =~= rows + columns + quadrants);
            if all.contains(x) {
                let m = choose|m: int| 0 <= m < all.len() && all[m] == x;
                if m < rows.len() {
                    assert(rows[m] == x);
                } else if m < rows.len() + columns.len() {
                    assert(columns[m - rows.len()] == x);
                } else {
                    assert(quadrants[m - rows.len() - columns.len()] == x);
                }
            }
            if rows.contains(x) {
                let m = choose|m: int| 0 <= m < rows.len() && rows[m] == x;
                assert(all[m] == x);
            }
            if columns.contains(x) {
                let m = choose|m: int| 0 <= m < columns.len() && columns[m] == x;
                assert(all[rows.len() + m] == x);
            }
            if quadrants.contains(x) {
                let m = choose|m: int| 0 <= m < quadrants.len() && quadrants[m] == x;
                assert(all[rows.len() + columns.len() + m] == x);
            }
        }
    }
    let mut vec: Vec<u8> = Vec::new();
    let mut d: u8 = 1;
    while d < 10
        invariant
            1 <= d <= 10,
            forall|x: u8| forbidden_values@.contains(x) <==> seen(cells, i, x),
            vec@ == candidates_upto(cells, i, d - 1),
        decreases 10 - d,
    {
        if !contains_value(&forbidden_values, d) {
            vec.push(d);
        }
        d += 1;
    }
    shuffle(&mut vec);
    vec
}

/// The position after `coord` in row-major order, if there is one.
pub fn get_next_coordinate(coord: &Coordinate) -> (next: Option<Coordinate>)
    requires
        coord.valid(),
    ensures
        coord.spec_index() < 80 ==> (next matches Some(c) && c.valid() && c.spec_index()
            == coord.spec_index() + 1),
        coord.spec_index() == 80 ==> next is None,
{
    let x = coord.x;
    let y = coord.y;
    if x < 9 {
        return Some(Coordinate::new(x + 1, y));
    } else if y < 9 {
        return Some(Coordinate::new(1, y + 1));
    }
    None
}

/// The digits from 1 to 9 in a random order.
pub fn init_new_data() -> (values: Vec<u8>)
    ensures
        values@.to_multiset() == all_digits().to_multiset(),
{
    let mut vec: Vec<u8> = Vec::new();
    let mut d: u8 = 1;
    while d < 10
        invariant
            1 <= d <= 10,
            vec@ == all_digits().take(d - 1),
        decreases 10 - d,
    {
        vec.push(d);
        assert(vec@ =~= all_digits().take(d as int));
        d += 1;
    }
    assert(all_digits().take(9) =~= all_digits());
    shuffle(&mut vec);
    vec
}

/// A square of the puzzle for each value.
pub fn map_to_board_data(vec: &Vec<u8>) -> (data: Vec<Option<Square>>)
    ensures
        data@.len() == vec@.len(),
        forall|i: int| 0 <= i < vec@.len() ==> #[trigger] data@[i] == Some(initial_square(vec@[i])),
{
    let mut data: Vec<Option<Square>> = Vec::new();
    let mut i: usize = 0;
    while i < vec.len()
        invariant
            i <= vec@.len(),
            data@.len() == i,
            forall|j: int| 0 <= j < i ==> #[trigger] data@[j] == Some(initial_square(vec@[j])),
        decreases vec@.len() - i,
    {
        data.push(Some(Square::new(vec[i], true)));
        i += 1;
    }
    data
}

/// `value` may go into the cell after the last of `vec`: none of the cells
/// so far that share a unit with it holds `value`.
pub fn is_insert_allowed(vec: &Vec<u8>, value: &u8) -> (allowed: bool)
    requires
        vec@.len() < 81,
    ensures
        allowed == !seen(prefix_cells(vec@), vec@.len() as int, *value),
{
    let len = vec.len();
    let ghost cells = prefix_cells(vec@);
    let kinds = [EUnit::Row, EUnit::Column, EUnit::Quadrant];
    let mut t: usize = 0;
    while t < 3
        invariant
            t <= 3,
            len == vec@.len(),
            len < 81,
            cells == prefix_cells(vec@),
            kinds@ == seq![EUnit::Row, EUnit::Column, EUnit::Quadrant],
            forall|t2: int|
                0 <= t2 < t ==> !seen_in_unit(
                    cells,
                    #[trigger] kinds@[t2],
                    len as int,
                    *value,
                ),
        decreases 3 - t,
    {
        let kind = kinds[t];
        let n = unit_number(kind, len);
        let mut k: usize = 0;
        while k < 9
            invariant
                k <= 9,
                n < 9,
                len == vec@.len(),
                len < 81,
                n == unit_of(kind, len as int),
                cells == prefix_cells(vec@),
                forall|k2: int|
                    0 <= k2 < k ==> !holds(
                        cells,
                        #[trigger] unit_cell(kind, n as int, k2),
                        *value,
                    ),
            decreases 9 - k,
        {
            let index = cell_of_unit(kind, n, k);
            if index < len && vec[index] == *value {
                proof {
                    lemma_unit_cell_place(kind, n as int, k as int);
                    lemma_same_unit(kind, len as int, index as int);
                    assert(holds(cells, index as int, *value));
                    assert(seen_in_unit(cells, kind, len as int, *value));
                    lemma_seen_by_units(cells, len as int, *value);
                }
                return false;
            }
            k += 1;
        }
        proof {
            assert forall|j: int|
                on_board(j) && same_unit(kind, len as int, j) implies !(
                #[trigger] holds(cells, j, *value)) by {
                lemma_same_unit(kind, len as int, j);
                lemma_cell_in_unit(kind, j);
                assert(j == unit_cell(
                    kind,
                    n as int,
                    place_in_unit(kind, j),
                ));
            }
        }
        t += 1;
    }
    proof {
        lemma_seen_by_units(cells, len as int, *value);
        assert(kinds@[0] == EUnit::Row && kinds@[1] == EUnit::Column && kinds@[2] == EUnit::Quadrant);
    }
    true
}

/// The digits that may go into the cell after the last of `board`, in a
/// random order.
pub fn get_allowed_values(board: &Vec<u8>) -> (values: Vec<u8>)
    requires
        board@.len() < 81,
    ensures
        values@.to_multiset() == candidates(prefix_cells(board@), board@.len() as int).to_multiset(),
{
    let mut vec: Vec<u8> = Vec::new();
    let mut d: u8 = 1;
    while d < 10
        invariant
            1 <= d <= 10,
            board@.len() < 81,
            vec@ == candidates_upto(prefix_cells(board@), board@.len() as int, d - 1),
        decreases 10 - d,
    {
        if is_insert_allowed(board, &d) {
            vec.push(d);
        }
        d += 1;
    }
    shuffle(&mut vec);
    vec
}

/// Appends values to `vec`, cell by cell in row-major order, until all 81
/// are there. Each digit that may go into the next cell is tried, in a
/// random order. `NotSolvable` comes back, with `vec` as it was, exactly
/// where the cells so far have no completion.
pub fn iterate_add(vec: &mut Vec<u8>) -> (result: Result<(), EError>)
    requires
        old(vec)@.len() < 81,
        !has_conflict(prefix_cells(old(vec)@)),
    ensures
        match result {
            Ok(()) => final(vec)@.len() == 81 && old(vec)@ == final(vec)@.take(
                old(vec)@.len() as int,
            ) && !has_conflict(prefix_cells(final(vec)@)) && (digits_only(old(vec)@)
                ==> digits_only(final(vec)@)),
            Err(e) => e == EError::NotSolvable && final(vec)@ == old(vec)@ && !solvable(
                prefix_cells(old(vec)@),
            ),
        },
    decreases 81 - old(vec)@.len(),
{
    let ghost start = vec@;
    let ghost cells = prefix_cells(start);
    let ghost i = start.len() as int;
    let set: Vec<u8> = get_allowed_values(vec);
    proof {
        lemma_permutation(set@, candidates(cells, i));
        lemma_candidates(cells, i);
    }
    let mut k: usize = 0;
    while k < set.len()
        invariant
            k <= set@.len(),
            vec@ == start,
            start == old(vec)@,
            start.len() < 81,
            i == start.len(),
            cells == prefix_cells(start),
            !has_conflict(cells),
            forall|x: u8| set@.contains(x) <==> (1 <= x <= 9 && !seen(cells, i, x)),
            forall|k2: int| 0 <= k2 < k ==> excluded(cells, i, #[trigger] set@[k2]),
        decreases set@.len() - k,
    {
        let value = set[k];
        vec.push(value);
        proof {
            assert(set@.contains(value));
            assert(prefix_cells(vec@) =~= cells.update(i, Some(initial_square(value))));
            lemma_no_conflict_at_unseen(cells, i, initial_square(value));
            lemma_placement_keeps_peace(cells, i, initial_square(value));
            assert(start =~= vec@.take(i));
            if digits_only(start) {
                assert forall|a: int| 0 <= a < vec@.len() implies 1 <= #[trigger] vec@[a] <= 9 by {
                    if a < i {
                        assert(vec@[a] == start[a]);
                    }
                }
            }
        }
        if vec.len() == 81 {
            return Ok(());
        }
        match iterate_add(vec) {
            Err(_) => {
                vec.pop();
                proof {
                    assert(vec@ =~= start);
                    assert forall|s: Seq<u8>| #[trigger] completes(s, cells) implies s[i] != value by {
                        if s[i] == value {
                            lemma_completion_survives(s, cells, i, initial_square(value));
                        }
                    }
                }
            },
            Ok(()) => {
                proof {
                    assert(start =~= vec@.take(i));
                }
                return Ok(());
            },
        }
        k += 1;
    }
    proof {
        assert forall|s: Seq<u8>| !#[trigger] completes(s, cells) by {
            if completes(s, cells) {
                lemma_completion_value_unseen(s, cells, i);
                assert(set@.contains(s[i]));
                let k2 = choose|k2: int| 0 <= k2 < set@.len() && set@[k2] == s[i];
                assert(excluded(cells, i, set@[k2]));
            }
        }
    }
    Err(EError::NotSolvable)
}

/// A square whose value no cell sharing a unit with it holds breaks no rule.
pub proof fn lemma_no_conflict_at_unseen(cells: Seq<Option<Square>>, i: int, square: Square)
    requires
        on_board(i),
        cells.len() == 81,
        !seen(cells, i, square.value),
    ensures
        !conflict_at(cells.update(i, Some(square)), i),
{
    let next = cells.update(i, Some(square));
    assert forall|kind: EUnit| !unit_conflict(next, kind, i) by {
        if unit_conflict(next, kind, i) {
            let j = choose|j: int|
                on_board(j) && same_unit(kind, i, j)
                    && #[trigger] clash(next, i, j);
            lemma_clash_symmetric(next, kind, i, j);
            assert(holds(cells, j, square.value));
        }
    }
}

} // verus!
