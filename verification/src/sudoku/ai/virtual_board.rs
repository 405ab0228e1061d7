use vstd::prelude::*;
use std::collections::HashMap;
use super::super::game::grid::{
    lemma_cell_in_unit, lemma_same_unit, lemma_seen_by_units, lemma_unit_cell_place,
    lemma_unit_values_seen, on_board, place_in_unit, same_quadrant, same_unit, seen, unit_of,
    unit_values, EUnit,
};
use super::super::game::rule::{
    cell_of_unit, unit_number, HorizontalUniqueRule, QuadrantUniqueRule,
    RowQuadrantCombinationRule, VerticalUniqueRule,
};
use super::super::game::{Board, Coordinate, Square};
use super::field::{Field, FieldView};
use super::solve_controller::ESolvingIntelligence;
use super::values::{
    all_digits, ascending, digits_only, lemma_ascending_unique, lemma_without, without,
};

verus! {

/// The digits up to `d`, in ascending order, that no cell sharing a unit
/// with cell `i` holds.
pub open spec fn candidates_upto(cells: Seq<Option<Square>>, i: int, d: int) -> Seq<u8>
    decreases d,
{
    if d <= 0 {
        Seq::empty()
    } else {
        let rest = candidates_upto(cells, i, d - 1);
        if seen(cells, i, d as u8) {
            rest
        } else {
            rest.push(d as u8)
        }
    }
}

/// The digits, in ascending order, that the three uniqueness rules leave
/// for cell `i`.
pub open spec fn candidates(cells: Seq<Option<Square>>, i: int) -> Seq<u8> {
    candidates_upto(cells, i, 9)
}

/// The field of cell `i` as the board alone gives it: the value of its
/// square, or the candidates that the rules leave.
pub open spec fn simple_field(cells: Seq<Option<Square>>, i: int) -> FieldView {
    match cells[i] {
        Some(s) => FieldView { values: seq![s.value], initial: s.initial, filled: true },
        None => FieldView { values: candidates(cells, i), initial: false, filled: false },
    }
}

/// The fields of all cells as the board alone gives them.
pub open spec fn simple_fields(cells: Seq<Option<Square>>) -> Seq<FieldView> {
    Seq::new(81, |i: int| simple_field(cells, i))
}

/// The candidates are ascending digits, and a digit is among them exactly
/// when it is not yet taken.
pub proof fn lemma_candidates_upto(cells: Seq<Option<Square>>, i: int, d: int)
    requires
        0 <= d <= 9,
    ensures
        ascending(candidates_upto(cells, i, d)),
        digits_only(candidates_upto(cells, i, d)),
        forall|x: u8|
            #[trigger] candidates_upto(cells, i, d).contains(x) <==> (1 <= x <= d && !seen(
                cells,
                i,
                x,
            )),
    decreases d,
{
    if d > 0 {
        lemma_candidates_upto(cells, i, d - 1);
        let rest = candidates_upto(cells, i, d - 1);
        let all = candidates_upto(cells, i, d);
        assert forall|k: int| 0 <= k < rest.len() implies 1 <= #[trigger] rest[k] <= d - 1 by {
            assert(rest.contains(rest[k]));
        }
        assert forall|x: u8| #[trigger] all.contains(x) <==> (1 <= x <= d && !seen(cells, i, x)) by {
            if all.contains(x) {
                let m = choose|m: int| 0 <= m < all.len() && all[m] == x;
                if m < rest.len() {
                    assert(rest[m] == x);
                    assert(rest.contains(x));
                }
            }
            if 1 <= x <= d && !seen(cells, i, x) {
                if x == d {
                    assert(all[all.len() - 1] == x);
                } else {
                    assert(rest.contains(x));
                    let m = choose|m: int| 0 <= m < rest.len() && rest[m] == x;
                    assert(all[m] == x);
                }
            }
        }
    }
}

/// The candidates of a cell are ascending digits, and a digit is among them
/// exactly when no cell that shares a unit with the cell holds it.
pub proof fn lemma_candidates(cells: Seq<Option<Square>>, i: int)
    ensures
        ascending(candidates(cells, i)),
        digits_only(candidates(cells, i)),
        forall|x: u8|
            #[trigger] candidates(cells, i).contains(x) <==> (1 <= x <= 9 && !seen(cells, i, x)),
{
    lemma_candidates_upto(cells, i, 9);
}

/// Within the line of cell `i` (its row or its column), value `v` is
/// possible only inside the quadrant of `i`.
pub open spec fn confined_to_quadrant(fields: Seq<FieldView>, line: EUnit, i: int, v: u8) -> bool {
    forall|j: int|
        on_board(j) && same_unit(line, i, j) && !same_quadrant(i, j) ==> !(
        #[trigger] fields[j]).values.contains(v)
}

/// The fields after `v` was taken out of every cell of the quadrant of `i`
/// that lies outside the line of `i`.
pub open spec fn strike(fields: Seq<FieldView>, line: EUnit, i: int, v: u8) -> Seq<FieldView> {
    Seq::new(
        81,
        |j: int|
            if same_quadrant(i, j) && !same_unit(line, i, j) {
                FieldView { values: without(fields[j].values, v), ..fields[j] }
            } else {
                fields[j]
            },
    )
}

/// One step of the elimination pass, for candidate `v` of cell `i`: where
/// `v` is confined to the quadrant within the row of `i`, the other rows of
/// the quadrant lose it; then the same for the column of `i`.
pub open spec fn eliminate_value(fields: Seq<FieldView>, i: int, v: u8) -> Seq<FieldView> {
    let by_row = if confined_to_quadrant(fields, EUnit::Row, i, v) {
        strike(fields, EUnit::Row, i, v)
    } else {
        fields
    };
    if confined_to_quadrant(by_row, EUnit::Column, i, v) {
        strike(by_row, EUnit::Column, i, v)
    } else {
        by_row
    }
}

/// The elimination pass for the first `k` of the candidates `values` of
/// cell `i`.
pub open spec fn eliminate_cell(fields: Seq<FieldView>, i: int, values: Seq<u8>, k: int) -> Seq<
    FieldView,
>
    decreases k,
{
    if k <= 0 {
        fields
    } else {
        eliminate_value(eliminate_cell(fields, i, values, k - 1), i, values[k - 1])
    }
}

/// The elimination pass for the first `n` cells: each empty cell in turn,
/// with the candidates that it has when its turn comes.
pub open spec fn eliminate_upto(fields: Seq<FieldView>, n: int) -> Seq<FieldView>
    decreases n,
{
    if n <= 0 {
        fields
    } else {
        let before = eliminate_upto(fields, n - 1);
        if before[n - 1].filled {
            before
        } else {
            eliminate_cell(before, n - 1, before[n - 1].values, before[n - 1].values.len() as int)
        }
    }
}

/// The fields of all cells after the one elimination pass.
pub open spec fn complex_fields(cells: Seq<Option<Square>>) -> Seq<FieldView> {
    eliminate_upto(simple_fields(cells), 81)
}

/// The fields that a solver of the given intelligence works with.
pub open spec fn fields_of(cells: Seq<Option<Square>>, intelligence: ESolvingIntelligence) -> Seq<
    FieldView,
> {
    if intelligence == ESolvingIntelligence::ComplexLogic {
        complex_fields(cells)
    } else {
        simple_fields(cells)
    }
}

/// Removing a value from fields keeps which of them stand for filled cells
/// and for squares of the puzzle.
pub proof fn lemma_eliminate_cell_flags(fields: Seq<FieldView>, i: int, values: Seq<u8>, k: int, j: int)
    requires
        fields.len() == 81,
        on_board(j),
    ensures
        eliminate_cell(fields, i, values, k)[j].filled == fields[j].filled,
        eliminate_cell(fields, i, values, k)[j].initial == fields[j].initial,
    decreases k,
{
    if k > 0 {
        lemma_eliminate_cell_flags(fields, i, values, k - 1, j);
        lemma_eliminate_cell_len(fields, i, values, k - 1);
    }
}

/// The elimination pass keeps which fields stand for filled cells and for
/// squares of the puzzle.
pub proof fn lemma_eliminate_flags(fields: Seq<FieldView>, n: int, j: int)
    requires
        fields.len() == 81,
        on_board(j),
    ensures
        eliminate_upto(fields, n)[j].filled == fields[j].filled,
        eliminate_upto(fields, n)[j].initial == fields[j].initial,
    decreases n,
{
    if n > 0 {
        lemma_eliminate_flags(fields, n - 1, j);
        lemma_eliminate_len(fields, n - 1);
        let before = eliminate_upto(fields, n - 1);
        lemma_eliminate_cell_flags(
            before,
            n - 1,
            before[n - 1].values,
            before[n - 1].values.len() as int,
            j,
        );
    }
}

/// The field of a cell stands for a filled cell exactly when the cell holds
/// a square, and for a square of the puzzle exactly when it holds one.
pub proof fn lemma_fields_flags(cells: Seq<Option<Square>>, intelligence: ESolvingIntelligence, j: int)
    requires
        on_board(j),
    ensures
        fields_of(cells, intelligence).len() == 81,
        fields_of(cells, intelligence)[j].filled == cells[j] is Some,
        fields_of(cells, intelligence)[j].initial == (cells[j] matches Some(s) && s.initial),
{
    lemma_eliminate_flags(simple_fields(cells), 81, j);
    lemma_eliminate_len(simple_fields(cells), 81);
}

/// The elimination pass keeps the number of fields.
pub proof fn lemma_eliminate_len(fields: Seq<FieldView>, n: int)
    requires
        fields.len() == 81,
    ensures
        eliminate_upto(fields, n).len() == 81,
    decreases n,
{
    if n > 0 {
        lemma_eliminate_len(fields, n - 1);
        let before = eliminate_upto(fields, n - 1);
        lemma_eliminate_cell_len(before, n - 1, before[n - 1].values, before[n - 1].values.len() as int);
    }
}

/// The elimination pass for one cell keeps the number of fields.
pub proof fn lemma_eliminate_cell_len(fields: Seq<FieldView>, i: int, values: Seq<u8>, k: int)
    requires
        fields.len() == 81,
    ensures
        eliminate_cell(fields, i, values, k).len() == 81,
    decreases k,
{
    if k > 0 {
        lemma_eliminate_cell_len(fields, i, values, k - 1);
    }
}

/// The candidates of each of the 81 cells of a board, in row-major order.
#[derive(Debug)]
pub struct VirtualBoard {
    data: Vec<Field>,
}

impl View for VirtualBoard {
    type V = Seq<FieldView>;

    closed spec fn view(&self) -> Seq<FieldView> {
        Seq::new(self.data@.len(), |i: int| self.data@[i]@)
    }
}

/// Takes each of `values` out of the possible values of `field`.
fn strike_all(field: &mut Field, values: &Vec<u8>)
    ensures
        final(field)@.initial == old(field)@.initial,
        final(field)@.filled == old(field)@.filled,
        ascending(old(field)@.values) ==> ascending(final(field)@.values),
        digits_only(old(field)@.values) ==> digits_only(final(field)@.values),
        forall|x: u8|
            #[trigger] final(field)@.values.contains(x) <==> (old(field)@.values.contains(x)
                && !values@.contains(x)),
{
    let mut k: usize = 0;
    while k < values.len()
        invariant
            k <= values@.len(),
            field@.initial == old(field)@.initial,
            field@.filled == old(field)@.filled,
            ascending(old(field)@.values) ==> ascending(field@.values),
            digits_only(old(field)@.values) ==> digits_only(field@.values),
            forall|x: u8|
                #[trigger] field@.values.contains(x) <==> (old(field)@.values.contains(x)
                    && !values@.take(k as int).contains(x)),
        decreases values@.len() - k,
    {
        let ghost before = field@.values;
        let v = values[k];
        proof {
            lemma_without(before, v);
        }
        field.disallow_value(v);
        proof {
            let t0 = values@.take(k as int);
            let t1 = values@.take(k as int + 1);
            assert forall|x: u8|
                #[trigger] field@.values.contains(x) <==> (old(field)@.values.contains(x)
                    && !t1.contains(x)) by {
                assert(without(before, v).contains(x) <==> (before.contains(x) && x != v));
                if t1.contains(x) {
                    let m = choose|m: int| 0 <= m < t1.len() && t1[m] == x;
                    if m < k {
                        assert(t0[m] == x);
                    }
                }
                if t0.contains(x) {
                    let m = choose|m: int| 0 <= m < t0.len() && t0[m] == x;
                    assert(t1[m] == x);
                }
                if x == v {
                    assert(t1[k as int] == v);
                }
            }
        }
        k += 1;
    }
    assert(values@.take(k as int) =~= values@);
}

impl VirtualBoard {
    /// There is a field for each of the 81 cells.
    pub open spec fn wf(&self) -> bool {
        self@.len() == 81
    }

    /// The field of each cell of `board`, narrowed as far as `intelligence`
    /// asks.
    pub fn new(board: &Board, intelligence: &ESolvingIntelligence) -> (v_board: Self)
        requires
            board.wf(),
        ensures
            v_board.wf(),
            v_board@ == fields_of(board@.cells, *intelligence),
    {
        let mut v_board = VirtualBoard { data: Vec::new() };
        let rows: Vec<Vec<u8>> = HorizontalUniqueRule::get_disallowed_values(board);
        let columns: Vec<Vec<u8>> = VerticalUniqueRule::get_disallowed_values(board);
        let quadrants: Vec<Vec<u8>> = QuadrantUniqueRule::get_disallowed_values(board);
        let data = board.get_data();
        let mut index: usize = 0;
        while index < 81
            invariant
                index <= 81,
                data@ == board@.cells,
                data@.len() == 81,
                rows@.len() == 9,
                columns@.len() == 9,
                quadrants@.len() == 9,
                forall|n: int|
                    0 <= n < 9 ==> (#[trigger] rows@[n])@ == unit_values(data@, EUnit::Row, n, 9),
                forall|n: int|
                    0 <= n < 9 ==> (#[trigger] columns@[n])@ == unit_values(
                        data@,
                        EUnit::Column,
                        n,
                        9,
                    ),
                forall|n: int|
                    0 <= n < 9 ==> (#[trigger] quadrants@[n])@ == unit_values(
                        data@,
                        EUnit::Quadrant,
                        n,
                        9,
                    ),
                v_board.data@.len() == index,
                forall|j: int|
                    0 <= j < index ==> (#[trigger] v_board.data@[j])@ == simple_field(data@, j),
            decreases 81 - index,
        {
            match data[index] {
                Some(p) => {
                    v_board.data.push(Field::from_square(&p));
                },
                None => {
                    let mut field = Field::new();
                    let r = unit_number(EUnit::Row, index);
                    let c = unit_number(EUnit::Column, index);
                    let q = unit_number(EUnit::Quadrant, index);
                    strike_all(&mut field, &rows[r]);
                    strike_all(&mut field, &columns[c]);
                    strike_all(&mut field, &quadrants[q]);
                    proof {
                        let i = index as int;
                        let cells = data@;
                        lemma_candidates(cells, i);
                        assert(ascending(all_digits()));
                        assert(digits_only(all_digits()));
                        assert forall|x: u8|
                            field@.values.contains(x) <==> candidates(cells, i).contains(x) by {
                            lemma_unit_values_seen(cells, EUnit::Row, i, x);
                            lemma_unit_values_seen(cells, EUnit::Column, i, x);
                            lemma_unit_values_seen(cells, EUnit::Quadrant, i, x);
                            lemma_seen_by_units(cells, i, x);
                            assert(all_digits().contains(x) <==> 1 <= x <= 9) by {
                                if 1 <= x <= 9 {
                                    assert(all_digits()[x - 1] == x);
                                }
                            }
                        }
                        lemma_ascending_unique(field@.values, candidates(cells, i));
                    }
                    v_board.data.push(field);
                },
            }
            index += 1;
        }
        assert(v_board@ =~= simple_fields(board@.cells));
        if let ESolvingIntelligence::ComplexLogic = intelligence {
            VirtualBoard::remove_row_quad_comb_rule(&mut v_board);
            proof {
                lemma_eliminate_len(simple_fields(board@.cells), 81);
            }
        }
        v_board
    }

    /// The one elimination pass: see `eliminate_upto`.
    fn remove_row_quad_comb_rule(v_board: &mut VirtualBoard)
        requires
            old(v_board).wf(),
        ensures
            final(v_board)@ == eliminate_upto(old(v_board)@, 81),
    {
        let mut index: usize = 0;
        while index < 81
            invariant
                index <= 81,
                v_board.wf(),
                v_board@ == eliminate_upto(old(v_board)@, index as int),
            decreases 81 - index,
        {
            let field = v_board.data[index].clone();
            let coordinate = Coordinate::from_index(index);
            if !field.is_filled() {
                let values = field.get_possible_values();
                let ghost start = v_board@;
                let mut k: usize = 0;
                while k < values.len()
                    invariant
                        k <= values@.len(),
                        index < 81,
                        coordinate.valid(),
                        coordinate.spec_index() == index,
                        v_board.wf(),
                        start.len() == 81,
                        v_board@ == eliminate_cell(start, index as int, values@, k as int),
                    decreases values@.len() - k,
                {
                    let value = values[k];
                    if RowQuadrantCombinationRule::is_exclusive_in_quadrant_horizontally(
                        v_board,
                        &coordinate,
                        &value,
                    ) {
                        strike_quadrant(v_board, EUnit::Row, index, value);
                    }
                    if RowQuadrantCombinationRule::is_exclusive_in_quadrant_vertically(
                        v_board,
                        &coordinate,
                        &value,
                    ) {
                        strike_quadrant(v_board, EUnit::Column, index, value);
                    }
                    k += 1;
                }
            }
            index += 1;
        }
    }

    /// A virtual board with the given fields, each under the index of its
    /// cell; a cell without a field gets the field of which nothing is
    /// known.
    pub fn from(data: HashMap<usize, Field>) -> (v_board: Self)
        ensures
            v_board.wf(),
            forall|i: int|
                0 <= i < 81 ==> #[trigger] v_board@[i] == if data@.contains_key(i as usize) {
                    data@[i as usize]@
                } else {
                    FieldView { values: all_digits(), initial: false, filled: false }
                },
    {
        broadcast use vstd::std_specs::hash::group_hash_axioms;

        let mut vec: Vec<Field> = Vec::new();
        let mut i: usize = 0;
        while i < 81
            invariant
                i <= 81,
                vec@.len() == i,
                forall|j: int|
                    0 <= j < i ==> (#[trigger] vec@[j])@ == if data@.contains_key(j as usize) {
                        data@[j as usize]@
                    } else {
                        FieldView { values: all_digits(), initial: false, filled: false }
                    },
            decreases 81 - i,
        {
            match data.get(&i) {
                None => {
                    vec.push(Field::new());
                },
                Some(p) => {
                    vec.push(p.clone());
                },
            }
            i += 1;
        }
        VirtualBoard { data: vec }
    }

    /// The field of the cell at `coordinate`; none for a position off the
    /// board.
    pub fn get_field(&self, coordinate: &Coordinate) -> (field: Option<&Field>)
        requires
            self.wf(),
        ensures
            coordinate.valid() ==> (field matches Some(f) && f@ == self@[coordinate.spec_index()]),
            !coordinate.valid() ==> field is None,
    {
        if coordinate.is_valid() {
            Some(&self.data[coordinate.get_index()])
        } else {
            None
        }
    }

    /// The fields in row-major order.
    pub fn get_data(&self) -> (data: &Vec<Field>)
        ensures
            data@.len() == self@.len(),
            forall|i: int| 0 <= i < data@.len() ==> (#[trigger] data@[i])@ == self@[i],
    {
        &self.data
    }
}

/// Takes `value` out of every cell of the quadrant of cell `index` that lies
/// outside the line (row or column) of that cell.
fn strike_quadrant(v_board: &mut VirtualBoard, line: EUnit, index: usize, value: u8)
    requires
        old(v_board).wf(),
        index < 81,
    ensures
        final(v_board)@ == strike(old(v_board)@, line, index as int, value),
{
    let q = unit_number(EUnit::Quadrant, index);
    let n = unit_number(line, index);
    let mut k: usize = 0;
    while k < 9
        invariant
            k <= 9,
            q < 9,
            index < 81,
            q == unit_of(EUnit::Quadrant, index as int),
            n == unit_of(line, index as int),
            v_board.data@.len() == 81,
            old(v_board).data@.len() == 81,
            forall|j: int|
                0 <= j < 81 ==> (#[trigger] v_board.data@[j])@ == if same_quadrant(index as int, j)
                    && !same_unit(line, index as int, j) && place_in_unit(EUnit::Quadrant, j) < k {
                    strike(old(v_board)@, line, index as int, value)[j]
                } else {
                    old(v_board)@[j]
                },
        decreases 9 - k,
    {
        let j = cell_of_unit(EUnit::Quadrant, q, k);
        proof {
            lemma_unit_cell_place(EUnit::Quadrant, q as int, k as int);
            lemma_same_unit(EUnit::Quadrant, index as int, j as int);
            lemma_same_unit(line, index as int, j as int);
        }
        if unit_number(line, j) != n {
            let ghost before = v_board.data@;
            let mut field = v_board.data[j].clone();
            field.disallow_value(value);
            v_board.data.set(j, field);
            assert(forall|j2: int| 0 <= j2 < 81 && j2 != j ==> v_board.data@[j2] == before[j2]);
        }
        proof {
            assert forall|j2: int| 0 <= j2 < 81 implies (#[trigger] v_board.data@[j2])@
                == if same_quadrant(index as int, j2) && !same_unit(line, index as int, j2)
                && place_in_unit(EUnit::Quadrant, j2) < k + 1 {
                strike(old(v_board)@, line, index as int, value)[j2]
            } else {
                old(v_board)@[j2]
            } by {
                if j2 != j && same_quadrant(index as int, j2) {
                    lemma_same_unit(EUnit::Quadrant, index as int, j2);
                    lemma_cell_in_unit(EUnit::Quadrant, j2);
                }
            }
        }
        k += 1;
    }
    proof {
        assert forall|j: int| 0 <= j < 81 implies v_board@[j] == strike(
            old(v_board)@,
            line,
            index as int,
            value,
        )[j] by {
            lemma_cell_in_unit(EUnit::Quadrant, j);
        }
        assert(v_board@ =~= strike(old(v_board)@, line, index as int, value));
    }
}

} // verus!
