//! Why the deductions are right: the candidates that a board leaves never
//! exclude what a completion of the board holds, and a placement that they
//! force is one that every completion makes.

use vstd::prelude::*;
use super::field::FieldView;
use super::solve_controller::ESolvingIntelligence;
use super::suggestion_controller::{forced, unit_count};
use super::super::game::Square;
use super::super::game::grid::{
    completes, holds, lemma_cell_in_unit, lemma_completion_value_unseen, lemma_same_unit,
    lemma_unit_cell_place, on_board, place_in_unit, related, same_quadrant, same_unit, unit_cell,
    unit_of, valid_squares, EUnit,
};
use super::values::{
    ascending, digits_only, lemma_distinct_digits_cover, lemma_without, lemma_without_contains,
};
use super::virtual_board::{
    candidates, confined_to_quadrant, eliminate_cell, eliminate_upto, eliminate_value, fields_of,
    lemma_candidates, simple_fields, strike,
};

verus! {

/// `s` is a finished Sudoku: a digit in each of the 81 cells, none of them
/// twice in any unit.
pub open spec fn is_solution(s: Seq<u8>) -> bool {
    &&& s.len() == 81
    &&& forall|i: int| on_board(i) ==> 1 <= #[trigger] s[i] <= 9
    &&& forall|i: int, j: int|
        on_board(i) && on_board(j) && i != j && #[trigger] related(i, j) ==> s[i] != s[j]
}

/// The fields leave, for each cell, the value that `s` has there.
pub open spec fn sound(fields: Seq<FieldView>, s: Seq<u8>) -> bool {
    &&& fields.len() == 81
    &&& forall|i: int| on_board(i) ==> (#[trigger] fields[i]).values.contains(s[i])
}

/// The candidates of each field are in ascending order, and those of an
/// empty cell are digits.
pub open spec fn shaped(fields: Seq<FieldView>) -> bool {
    &&& fields.len() == 81
    &&& forall|i: int| on_board(i) ==> ascending((#[trigger] fields[i]).values)
    &&& forall|i: int| on_board(i) && !(#[trigger] fields[i]).filled ==> digits_only(fields[i].values)
}

/// Each field of `narrow` stands for the same cell as that of `wide` and
/// leaves no value that the other does not leave.
pub open spec fn within(narrow: Seq<FieldView>, wide: Seq<FieldView>) -> bool {
    &&& narrow.len() == 81
    &&& wide.len() == 81
    &&& forall|i: int|
        on_board(i) ==> (#[trigger] narrow[i]).filled == wide[i].filled && narrow[i].initial
            == wide[i].initial
    &&& forall|i: int, x: u8|
        on_board(i) && #[trigger] narrow[i].values.contains(x) ==> wide[i].values.contains(x)
}

/// What completes a grid of digits is a finished Sudoku.
pub proof fn lemma_completion_is_solution(s: Seq<u8>, cells: Seq<Option<Square>>)
    requires
        completes(s, cells),
        valid_squares(cells),
    ensures
        is_solution(s),
{
    assert forall|i: int| on_board(i) implies 1 <= #[trigger] s[i] <= 9 by {
        if cells[i] is Some {
            assert(cells[i]->0.value == s[i]);
        }
    }
}

/// Every unit of a finished Sudoku holds every digit.
pub proof fn lemma_solution_has_digit(s: Seq<u8>, kind: EUnit, n: int, v: u8) -> (p: int)
    requires
        is_solution(s),
        0 <= n < 9,
        1 <= v <= 9,
    ensures
        0 <= p < 9,
        s[unit_cell(kind, n, p)] == v,
{
    let row = Seq::new(9, |k: int| s[unit_cell(kind, n, k)]);
    assert forall|a: int| 0 <= a < row.len() implies 1 <= #[trigger] row[a] <= 9 by {
        lemma_unit_cell_place(kind, n, a);
    }
    assert forall|a: int, b: int| 0 <= a < row.len() && 0 <= b < row.len() && a != b implies row[a]
        != row[b] by {
        let i = unit_cell(kind, n, a);
        let j = unit_cell(kind, n, b);
        lemma_unit_cell_place(kind, n, a);
        lemma_unit_cell_place(kind, n, b);
        lemma_same_unit(kind, i, j);
        assert(related(i, j));
    }
    lemma_distinct_digits_cover(row, v);
    let p = choose|p: int| 0 <= p < row.len() && row[p] == v;
    p
}

/// The fields that the board alone gives are in order and leave what a
/// completion holds.
pub proof fn lemma_simple_fields_sound(cells: Seq<Option<Square>>, s: Seq<u8>)
    requires
        cells.len() == 81,
        completes(s, cells),
    ensures
        sound(simple_fields(cells), s),
{
    assert forall|i: int| on_board(i) implies (#[trigger] simple_fields(cells)[i]).values.contains(
        s[i],
    ) by {
        if cells[i] is Some {
            assert(seq![cells[i]->0.value][0] == s[i]);
        } else {
            lemma_completion_value_unseen(s, cells, i);
            lemma_candidates(cells, i);
        }
    }
}

/// The fields that the board alone gives have their candidates in
/// ascending order.
pub proof fn lemma_simple_fields_shaped(cells: Seq<Option<Square>>)
    ensures
        shaped(simple_fields(cells)),
{
    assert forall|i: int| on_board(i) implies ascending((#[trigger] simple_fields(cells)[i]).values) by {
        lemma_candidates(cells, i);
    }
    assert forall|i: int| on_board(i) && !(#[trigger] simple_fields(cells)[i]).filled implies digits_only(
        simple_fields(cells)[i].values,
    ) by {
        lemma_candidates(cells, i);
    }
}

/// Striking a value keeps the fields in order and within what they were.
pub proof fn lemma_strike_within(fields: Seq<FieldView>, line: EUnit, i: int, v: u8)
    requires
        fields.len() == 81,
    ensures
        within(strike(fields, line, i, v), fields),
        shaped(fields) ==> shaped(strike(fields, line, i, v)),
{
    let next = strike(fields, line, i, v);
    assert forall|j: int, x: u8| on_board(j) && #[trigger] next[j].values.contains(x) implies fields[j].values.contains(
        x,
    ) by {
        lemma_without_contains(fields[j].values, v, x);
    }
    if shaped(fields) {
        assert forall|j: int| on_board(j) implies ascending((#[trigger] next[j]).values) by {
            assert(ascending(fields[j].values));
            lemma_without(fields[j].values, v);
        }
        assert forall|j: int| on_board(j) && !(#[trigger] next[j]).filled implies digits_only(
            next[j].values,
        ) by {
            assert(!fields[j].filled);
            lemma_without(fields[j].values, v);
        }
    }
}

/// Striking a value that is confined to a quadrant within a line takes
/// nothing away that a finished Sudoku holds.
pub proof fn lemma_strike_sound(fields: Seq<FieldView>, line: EUnit, i: int, v: u8, s: Seq<u8>)
    requires
        is_solution(s),
        sound(fields, s),
        on_board(i),
        confined_to_quadrant(fields, line, i, v),
    ensures
        sound(strike(fields, line, i, v), s),
{
    let next = strike(fields, line, i, v);
    assert forall|j: int| on_board(j) implies (#[trigger] next[j]).values.contains(s[j]) by {
        assert(fields[j].values.contains(s[j]));
        if same_quadrant(i, j) && !same_unit(line, i, j) {
            lemma_without_contains(fields[j].values, v, s[j]);
            if s[j] == v {
                // the line of `i` holds `v` somewhere: inside the quadrant
                lemma_cell_in_unit(line, i);
                let p = lemma_solution_has_digit(s, line, unit_of(line, i), v);
                let c = unit_cell(line, unit_of(line, i), p);
                lemma_unit_cell_place(line, unit_of(line, i), p);
                lemma_same_unit(line, i, c);
                assert(fields[c].values.contains(s[c]));
                assert(same_quadrant(i, c));
                assert(c != j);
                assert(related(j, c));
            }
        }
    }
}

/// One step of the elimination pass keeps the fields in order and within
/// what they were, and takes nothing away that a finished Sudoku holds.
pub proof fn lemma_eliminate_value_sound(fields: Seq<FieldView>, i: int, v: u8, s: Seq<u8>)
    requires
        fields.len() == 81,
        on_board(i),
    ensures
        within(eliminate_value(fields, i, v), fields),
        shaped(fields) ==> shaped(eliminate_value(fields, i, v)),
        is_solution(s) && sound(fields, s) ==> sound(eliminate_value(fields, i, v), s),
{
    let by_row = if confined_to_quadrant(fields, EUnit::Row, i, v) {
        strike(fields, EUnit::Row, i, v)
    } else {
        fields
    };
    lemma_strike_within(fields, EUnit::Row, i, v);
    lemma_strike_within(by_row, EUnit::Column, i, v);
    if is_solution(s) && sound(fields, s) {
        if confined_to_quadrant(fields, EUnit::Row, i, v) {
            lemma_strike_sound(fields, EUnit::Row, i, v, s);
        }
        if confined_to_quadrant(by_row, EUnit::Column, i, v) {
            lemma_strike_sound(by_row, EUnit::Column, i, v, s);
        }
    }
    let result = eliminate_value(fields, i, v);
    assert forall|j: int, x: u8| on_board(j) && #[trigger] result[j].values.contains(x) implies fields[j].values.contains(
        x,
    ) by {
        if result[j].values.contains(x) {
            assert(by_row[j].values.contains(x));
        }
    }
}

/// The elimination pass for one cell keeps the fields in order and within
/// what they were, and takes nothing away that a finished Sudoku holds.
pub proof fn lemma_eliminate_cell_sound(
    fields: Seq<FieldView>,
    i: int,
    values: Seq<u8>,
    k: int,
    s: Seq<u8>,
)
    requires
        fields.len() == 81,
        on_board(i),
    ensures
        within(eliminate_cell(fields, i, values, k), fields),
        shaped(fields) ==> shaped(eliminate_cell(fields, i, values, k)),
        is_solution(s) && sound(fields, s) ==> sound(eliminate_cell(fields, i, values, k), s),
    decreases k,
{
    if k > 0 {
        lemma_eliminate_cell_sound(fields, i, values, k - 1, s);
        let before = eliminate_cell(fields, i, values, k - 1);
        lemma_eliminate_value_sound(before, i, values[k - 1], s);
        let result = eliminate_cell(fields, i, values, k);
        assert forall|j: int, x: u8| on_board(j) && #[trigger] result[j].values.contains(x) implies fields[j].values.contains(
            x,
        ) by {
            if result[j].values.contains(x) {
                assert(before[j].values.contains(x));
            }
        }
    }
}

/// The elimination pass keeps the fields in order and within what they
/// were, and takes nothing away that a finished Sudoku holds.
pub proof fn lemma_eliminate_sound(fields: Seq<FieldView>, n: int, s: Seq<u8>)
    requires
        fields.len() == 81,
        0 <= n <= 81,
    ensures
        within(eliminate_upto(fields, n), fields),
        shaped(fields) ==> shaped(eliminate_upto(fields, n)),
        is_solution(s) && sound(fields, s) ==> sound(eliminate_upto(fields, n), s),
    decreases n,
{
    if n > 0 {
        lemma_eliminate_sound(fields, n - 1, s);
        let before = eliminate_upto(fields, n - 1);
        lemma_eliminate_cell_sound(
            before,
            n - 1,
            before[n - 1].values,
            before[n - 1].values.len() as int,
            s,
        );
        let result = eliminate_upto(fields, n);
        assert forall|j: int, x: u8| on_board(j) && #[trigger] result[j].values.contains(x) implies fields[j].values.contains(
            x,
        ) by {
            if result[j].values.contains(x) {
                assert(before[j].values.contains(x));
            }
        }
    }
}

/// The fields that a solver works with are in order, lie within those that
/// the board alone gives, and leave what a completion of the board holds.
pub proof fn lemma_fields_sound(
    cells: Seq<Option<Square>>,
    intelligence: ESolvingIntelligence,
    s: Seq<u8>,
)
    requires
        cells.len() == 81,
    ensures
        shaped(fields_of(cells, intelligence)),
        within(fields_of(cells, intelligence), simple_fields(cells)),
        completes(s, cells) && valid_squares(cells) ==> sound(fields_of(cells, intelligence), s),
{
    lemma_simple_fields_shaped(cells);
    lemma_eliminate_sound(simple_fields(cells), 81, s);
    if completes(s, cells) && valid_squares(cells) {
        lemma_completion_is_solution(s, cells);
        lemma_simple_fields_sound(cells, s);
    }
}

/// A value that is possible for two cells of a unit is counted at least
/// twice there, and a value that is counted is possible for a cell.
pub proof fn lemma_unit_count(fields: Seq<FieldView>, kind: EUnit, n: int, v: u8, k: int)
    requires
        0 <= k,
    ensures
        unit_count(fields, kind, n, v, k) <= k,
        unit_count(fields, kind, n, v, k) >= 1 ==> exists|p: int|
            0 <= p < k && (#[trigger] fields[unit_cell(kind, n, p)]).values.contains(v),
        forall|p: int|
            0 <= p < k && (#[trigger] fields[unit_cell(kind, n, p)]).values.contains(v)
                ==> unit_count(fields, kind, n, v, k) >= 1,
        forall|p: int, q: int|
            0 <= p < q < k && (#[trigger] fields[unit_cell(kind, n, p)]).values.contains(v) && (
            #[trigger] fields[unit_cell(kind, n, q)]).values.contains(v) ==> unit_count(
                fields,
                kind,
                n,
                v,
                k,
            ) >= 2,
    decreases k,
{
    if k > 0 {
        lemma_unit_count(fields, kind, n, v, k - 1);
        if unit_count(fields, kind, n, v, k) >= 1 {
            if fields[unit_cell(kind, n, k - 1)].values.contains(v) {
            } else {
                let p = choose|p: int|
                    0 <= p < k - 1 && (#[trigger] fields[unit_cell(kind, n, p)]).values.contains(v);
                assert(fields[unit_cell(kind, n, p)].values.contains(v));
            }
        }
    }
}

/// A value that is possible for one cell of a unit only, in fields that
/// leave what a finished Sudoku holds, is what the Sudoku has in that cell.
pub proof fn lemma_hidden_single_sound(
    fields: Seq<FieldView>,
    kind: EUnit,
    i: int,
    v: u8,
    s: Seq<u8>,
)
    requires
        is_solution(s),
        sound(fields, s),
        on_board(i),
        1 <= v <= 9,
        fields[i].values.contains(v),
        unit_count(fields, kind, unit_of(kind, i), v, 9) == 1,
    ensures
        s[i] == v,
{
    let n = unit_of(kind, i);
    lemma_cell_in_unit(kind, i);
    let p = lemma_solution_has_digit(s, kind, n, v);
    let c = unit_cell(kind, n, p);
    lemma_unit_cell_place(kind, n, p);
    assert(fields[c].values.contains(s[c]));
    let q = place_in_unit(kind, i);
    assert(unit_cell(kind, n, q) == i);
    lemma_unit_count(fields, kind, n, v, 9);
    if p < q {
        assert(fields[unit_cell(kind, n, p)].values.contains(v));
        assert(fields[unit_cell(kind, n, q)].values.contains(v));
    } else if q < p {
        assert(fields[unit_cell(kind, n, q)].values.contains(v));
        assert(fields[unit_cell(kind, n, p)].values.contains(v));
    }
}

/// A placement that the fields force, where the fields leave what a
/// finished Sudoku holds, is the placement that the Sudoku makes.
pub proof fn lemma_forced_sound(fields: Seq<FieldView>, i: int, v: u8, s: Seq<u8>)
    requires
        is_solution(s),
        sound(fields, s),
        shaped(fields),
        on_board(i),
        forced(fields, i, v),
    ensures
        s[i] == v,
        1 <= v <= 9,
{
    let values = fields[i].values;
    assert(values.contains(s[i]));
    assert(digits_only(values));
    let at = choose|at: int| 0 <= at < values.len() && values[at] == v;
    assert(1 <= values[at] <= 9);
    if values.len() == 1 {
        let a = choose|a: int| 0 <= a < values.len() && values[a] == v;
        let b = choose|b: int| 0 <= b < values.len() && values[b] == s[i];
    } else {
        if unit_count(fields, EUnit::Row, unit_of(EUnit::Row, i), v, 9) == 1 {
            lemma_hidden_single_sound(fields, EUnit::Row, i, v, s);
        } else if unit_count(fields, EUnit::Column, unit_of(EUnit::Column, i), v, 9) == 1 {
            lemma_hidden_single_sound(fields, EUnit::Column, i, v, s);
        } else {
            lemma_hidden_single_sound(fields, EUnit::Quadrant, i, v, s);
        }
    }
}

} // verus!
