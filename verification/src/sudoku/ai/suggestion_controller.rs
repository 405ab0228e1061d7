use vstd::prelude::*;
use super::super::game::grid::{unit_cell, unit_of, EUnit};
use super::super::game::rule::{cell_of_unit, unit_number};
use super::super::game::{Board, Coordinate, Square};
use super::field::FieldView;
use super::solve_controller::ESolvingIntelligence;
use super::virtual_board::{fields_of, VirtualBoard};

verus! {

/// The number of cells, among the first `k` of unit `n` of the given kind,
/// for which `v` is possible.
pub open spec fn unit_count(fields: Seq<FieldView>, kind: EUnit, n: int, v: u8, k: int) -> nat
    decreases k,
{
    if k <= 0 {
        0
    } else {
        unit_count(fields, kind, n, v, k - 1) + if fields[unit_cell(kind, n, k - 1)].values.contains(
            v,
        ) {
            1nat
        } else {
            0nat
        }
    }
}

/// Value `v` is possible for exactly one cell of the row, of the column or
/// of the quadrant of cell `i`.
pub open spec fn hidden_single(fields: Seq<FieldView>, i: int, v: u8) -> bool {
    ||| unit_count(fields, EUnit::Row, unit_of(EUnit::Row, i), v, 9) == 1
    ||| unit_count(fields, EUnit::Column, unit_of(EUnit::Column, i), v, 9) == 1
    ||| unit_count(fields, EUnit::Quadrant, unit_of(EUnit::Quadrant, i), v, 9) == 1
}

/// Cell `i` is empty, and its candidate `v` is forced: it is the only
/// candidate of the cell, or the cell is the only one of a unit that can
/// take it.
pub open spec fn forced(fields: Seq<FieldView>, i: int, v: u8) -> bool {
    &&& !fields[i].initial
    &&& !fields[i].filled
    &&& fields[i].values.contains(v)
    &&& (fields[i].values.len() == 1 || hidden_single(fields, i, v))
}

/// The square that the engine suggests for value `v`.
pub open spec fn suggested_square(v: u8) -> Square {
    Square { value: v, initial: false, conflict: false, generated: true, guessed: false }
}

/// The suggestions for cell `i` that come from the first `k` of its
/// candidates, in the order of the candidates.
pub open spec fn cell_suggestions(fields: Seq<FieldView>, i: int, k: int) -> Seq<
    (Coordinate, Square),
>
    decreases k,
{
    if k <= 0 {
        Seq::empty()
    } else {
        let rest = cell_suggestions(fields, i, k - 1);
        let v = fields[i].values[k - 1];
        if forced(fields, i, v) {
            rest.push((Coordinate::spec_from_index(i), suggested_square(v)))
        } else {
            rest
        }
    }
}

/// The suggestions for the first `n` cells, cell by cell.
pub open spec fn suggestions_upto(fields: Seq<FieldView>, n: int) -> Seq<(Coordinate, Square)>
    decreases n,
{
    if n <= 0 {
        Seq::empty()
    } else {
        suggestions_upto(fields, n - 1) + cell_suggestions(
            fields,
            n - 1,
            fields[n - 1].values.len() as int,
        )
    }
}

/// All forced placements, by cell and then by the order of its candidates.
pub open spec fn suggestions(fields: Seq<FieldView>) -> Seq<(Coordinate, Square)> {
    suggestions_upto(fields, 81)
}

/// A cell suggests exactly its forced candidates.
pub proof fn lemma_cell_suggestions(fields: Seq<FieldView>, i: int, k: int, s: (Coordinate, Square))
    requires
        0 <= k <= fields[i].values.len(),
    ensures
        cell_suggestions(fields, i, k).contains(s) <==> (s.0 == Coordinate::spec_from_index(i) && s.1
            == suggested_square(s.1.value) && fields[i].values.take(k).contains(s.1.value) && forced(
            fields,
            i,
            s.1.value,
        )),
    decreases k,
{
    if k > 0 {
        lemma_cell_suggestions(fields, i, k - 1, s);
        let rest = cell_suggestions(fields, i, k - 1);
        let all = cell_suggestions(fields, i, k);
        let v = fields[i].values[k - 1];
        let t0 = fields[i].values.take(k - 1);
        let t1 = fields[i].values.take(k);
        if t0.contains(s.1.value) {
            let m = choose|m: int| 0 <= m < t0.len() && t0[m] == s.1.value;
            assert(t1[m] == s.1.value);
        }
        if t1.contains(s.1.value) && v != s.1.value {
            let m = choose|m: int| 0 <= m < t1.len() && t1[m] == s.1.value;
            assert(t0[m] == s.1.value);
        }
        assert(t1[k - 1] == v);
        if all.contains(s) {
            let m = choose|m: int| 0 <= m < all.len() && all[m] == s;
            if m < rest.len() {
                assert(rest[m] == s);
                assert(rest.contains(s));
            }
        }
        if rest.contains(s) {
            let m = choose|m: int| 0 <= m < rest.len() && rest[m] == s;
            assert(all[m] == s);
        }
        if forced(fields, i, v) && s == (Coordinate::spec_from_index(i), suggested_square(v)) {
            assert(all[all.len() - 1] == s);
        }
    }
}

/// A placement is suggested exactly when its cell lies among the first `n`
/// and its value is forced there.
pub proof fn lemma_suggestions_upto(fields: Seq<FieldView>, n: int, s: (Coordinate, Square))
    requires
        0 <= n <= 81,
    ensures
        suggestions_upto(fields, n).contains(s) <==> (s.0.valid() && s.0.spec_index() < n && s.1
            == suggested_square(s.1.value) && forced(fields, s.0.spec_index(), s.1.value)),
    decreases n,
{
    if n > 0 {
        lemma_suggestions_upto(fields, n - 1, s);
        let before = suggestions_upto(fields, n - 1);
        let here = cell_suggestions(fields, n - 1, fields[n - 1].values.len() as int);
        let all = suggestions_upto(fields, n);
        lemma_cell_suggestions(fields, n - 1, fields[n - 1].values.len() as int, s);
        assert(fields[n - 1].values.take(fields[n - 1].values.len() as int) =~= fields[n - 1].values);
        Coordinate::lemma_index_roundtrip(n - 1);
        if s.0.valid() {
            Coordinate::lemma_coordinate_roundtrip(s.0);
        }
        if all.contains(s) {
            let m = choose|m: int| 0 <= m < all.len() && all[m] == s;
            if m < before.len() {
                assert(before[m] == s);
                assert(before.contains(s));
            } else {
                assert(here[m - before.len()] == s);
                assert(here.contains(s));
            }
        }
        if before.contains(s) {
            let m = choose|m: int| 0 <= m < before.len() && before[m] == s;
            assert(all[m] == s);
        }
        if here.contains(s) {
            let m = choose|m: int| 0 <= m < here.len() && here[m] == s;
            assert(all[before.len() + m] == s);
        }
    }
}

/// The placements that are suggested are the forced ones: the square is
/// one of the engine, for an empty cell of the board, with a value that is
/// the last candidate of the cell or has no other cell left in a unit.
pub proof fn lemma_suggestions(fields: Seq<FieldView>, s: (Coordinate, Square))
    ensures
        suggestions(fields).contains(s) <==> (s.0.valid() && s.1 == suggested_square(s.1.value)
            && forced(fields, s.0.spec_index(), s.1.value)),
{
    lemma_suggestions_upto(fields, 81, s);
}

/// Finds the placements that the candidates of a board force.
pub struct SuggestionController {
    virtual_board: VirtualBoard,
}

impl View for SuggestionController {
    type V = Seq<FieldView>;

    closed spec fn view(&self) -> Seq<FieldView> {
        self.virtual_board@
    }
}

impl SuggestionController {
    /// There is a field for each of the 81 cells.
    pub open spec fn wf(&self) -> bool {
        self@.len() == 81
    }

    /// A controller for the candidates that `intelligence` leaves on
    /// `board`.
    pub fn new(board: &Board, intelligence: &ESolvingIntelligence) -> (controller: Self)
        requires
            board.wf(),
        ensures
            controller.wf(),
            controller@ == fields_of(board@.cells, *intelligence),
    {
        SuggestionController { virtual_board: VirtualBoard::new(board, intelligence) }
    }

    /// A controller for the given candidates.
    pub fn from_virtual_board(virtual_board: VirtualBoard) -> (controller: Self)
        requires
            virtual_board.wf(),
        ensures
            controller.wf(),
            controller@ == virtual_board@,
    {
        SuggestionController { virtual_board }
    }

    /// All forced placements, by cell and then by the order of its
    /// candidates.
    pub fn get_suggestions(&self) -> (result: Vec<(Coordinate, Square)>)
        requires
            self.wf(),
        ensures
            result@ == suggestions(self@),
    {
        let mut result: Vec<(Coordinate, Square)> = Vec::new();
        let data = self.virtual_board.get_data();
        let mut index: usize = 0;
        while index < 81
            invariant
                index <= 81,
                self.wf(),
                data@.len() == 81,
                forall|i: int| 0 <= i < 81 ==> (#[trigger] data@[i])@ == self@[i],
                result@ == suggestions_upto(self@, index as int),
            decreases 81 - index,
        {
            let field = &data[index];
            let coordinate = Coordinate::from_index(index);
            let values = field.get_possible_values();
            let ghost before = result@;
            let mut k: usize = 0;
            while k < values.len()
                invariant
                    k <= values@.len(),
                    index < 81,
                    self.wf(),
                    coordinate == Coordinate::spec_from_index(index as int),
                    coordinate.valid(),
                    field@ == self@[index as int],
                    values@ == field@.values,
                    result@ == before + cell_suggestions(self@, index as int, k as int),
                decreases values@.len() - k,
            {
                let value = values[k];
                let ghost rest = cell_suggestions(self@, index as int, k as int);
                if self.is_forced(index, value) {
                    result.push((coordinate, Square::generate(value)));
                    assert(result@ =~= before + rest.push(
                        (Coordinate::spec_from_index(index as int), suggested_square(value)),
                    ));
                }
                k += 1;
            }
            index += 1;
        }
        result
    }

    /// The candidate `value` of the cell at `index` is forced: see `forced`.
    fn is_forced(&self, index: usize, value: u8) -> (result: bool)
        requires
            self.wf(),
            index < 81,
            self@[index as int].values.contains(value),
        ensures
            result == forced(self@, index as int, value),
    {
        let data = self.virtual_board.get_data();
        let field = &data[index];
        let coordinate = Coordinate::from_index(index);
        assert(unit_of(EUnit::Row, index as int) == coordinate.y - 1);
        assert(unit_of(EUnit::Column, index as int) == coordinate.x - 1);
        assert(9 * (coordinate.y - 1) + (coordinate.x - 1) == index);
        !field.is_initial() && !field.is_filled() && (field.get_possible_values().len() == 1
            || self.count_horizontal(&value, &coordinate.y) == 1 || self.count_vertical(
            &value,
            &coordinate.x,
        ) == 1 || self.count_quarter(&value, &coordinate.x, &coordinate.y) == 1)
    }

    /// The number of cells of unit `n` of the given kind for which `value`
    /// is possible.
    fn count_in_unit(&self, kind: EUnit, n: usize, value: u8) -> (count: u8)
        requires
            self.wf(),
            n < 9,
        ensures
            count == unit_count(self@, kind, n as int, value, 9),
    {
        let data = self.virtual_board.get_data();
        let mut count: u8 = 0;
        let mut k: usize = 0;
        while k < 9
            invariant
                k <= 9,
                n < 9,
                data@.len() == 81,
                forall|i: int| 0 <= i < 81 ==> (#[trigger] data@[i])@ == self@[i],
                count == unit_count(self@, kind, n as int, value, k as int),
                count <= k,
            decreases 9 - k,
        {
            let j = cell_of_unit(kind, n, k);
            if data[j].has_possible_value(&value) {
                count += 1;
            }
            k += 1;
        }
        count
    }

    /// The number of cells of row `y` for which `value` is possible.
    fn count_horizontal(&self, value: &u8, y: &u8) -> (count: u8)
        requires
            self.wf(),
            1 <= *y <= 9,
        ensures
            count == unit_count(self@, EUnit::Row, *y - 1, *value, 9),
    {
        self.count_in_unit(EUnit::Row, (*y - 1) as usize, *value)
    }

    /// The number of cells of column `x` for which `value` is possible.
    fn count_vertical(&self, value: &u8, x: &u8) -> (count: u8)
        requires
            self.wf(),
            1 <= *x <= 9,
        ensures
            count == unit_count(self@, EUnit::Column, *x - 1, *value, 9),
    {
        self.count_in_unit(EUnit::Column, (*x - 1) as usize, *value)
    }

    /// The number of cells, in the quadrant of the cell in column `x` and
    /// row `y`, for which `value` is possible.
    fn count_quarter(&self, value: &u8, x: &u8, y: &u8) -> (count: u8)
        requires
            self.wf(),
            1 <= *x <= 9,
            1 <= *y <= 9,
        ensures
            count == unit_count(
                self@,
                EUnit::Quadrant,
                unit_of(EUnit::Quadrant, 9 * (*y - 1) + (*x - 1)),
                *value,
                9,
            ),
    {
        let index = Coordinate::new(*x, *y).get_index();
        self.count_in_unit(EUnit::Quadrant, unit_number(EUnit::Quadrant, index), *value)
    }
}

} // verus!
