use vstd::prelude::*;
use super::super::ai::virtual_board::confined_to_quadrant;
use super::super::ai::VirtualBoard;
use super::board::Board;
use super::coordinate::Coordinate;
use super::game_state::EGameState;
use super::grid::{
    clash, lemma_cell_in_unit, lemma_same_unit, lemma_unit_cell_place, on_board, place_in_unit,
    same_quadrant, same_unit, unit_cell, unit_conflict, unit_of, unit_values, EUnit,
};
use super::square::Square;

verus! {

/// The number of the unit of the given kind that cell `index` lies in.
pub(crate) fn unit_number(kind: EUnit, index: usize) -> (n: usize)
    requires
        index < 81,
    ensures
        n == unit_of(kind, index as int),
        n < 9,
{
    match kind {
        EUnit::Row => index / 9,
        EUnit::Column => index % 9,
        EUnit::Quadrant => 3 * ((index / 9) / 3) + (index % 9) / 3,
    }
}

/// The index of the `k`-th cell of unit `n` of the given kind.
pub(crate) fn cell_of_unit(kind: EUnit, n: usize, k: usize) -> (index: usize)
    requires
        n < 9,
        k < 9,
    ensures
        index == unit_cell(kind, n as int, k as int),
        index < 81,
{
    proof {
        lemma_unit_cell_place(kind, n as int, k as int);
    }
    match kind {
        EUnit::Row => 9 * n + k,
        EUnit::Column => 9 * k + n,
        EUnit::Quadrant => 9 * (3 * (n / 3) + k / 3) + (3 * (n % 3) + k % 3),
    }
}

/// The square in cell `index` meets its value again in its unit of the
/// given kind.
pub(crate) fn value_repeats(data: &Vec<Option<Square>>, kind: EUnit, index: usize) -> (found: bool)
    requires
        data@.len() == 81,
        index < 81,
    ensures
        found == unit_conflict(data@, kind, index as int),
{
    match data[index] {
        None => false,
        Some(square) => {
            let n = unit_number(kind, index);
            let mut k: usize = 0;
            while k < 9
                invariant
                    k <= 9,
                    n < 9,
                    n == unit_of(kind, index as int),
                    data@.len() == 81,
                    index < 81,
                    data@[index as int] == Some(square),
                    forall|k2: int|
                        0 <= k2 < k ==> !clash(
                            data@,
                            index as int,
                            #[trigger] unit_cell(kind, n as int, k2),
                        ),
                decreases 9 - k,
            {
                let j = cell_of_unit(kind, n, k);
                if j != index {
                    if let Some(other) = data[j] {
                        if other.value == square.value {
                            proof {
                                lemma_unit_cell_place(kind, n as int, k as int);
                                lemma_same_unit(kind, index as int, j as int);
                                assert(clash(data@, index as int, j as int));
                            }
                            return true;
                        }
                    }
                }
                k += 1;
            }
            proof {
                assert forall|j: int|
                    on_board(j) && same_unit(kind, index as int, j) implies !#[trigger] clash(
                    data@,
                    index as int,
                    j,
                ) by {
                    lemma_same_unit(kind, index as int, j);
                    lemma_cell_in_unit(kind, j);
                    assert(j == unit_cell(kind, n as int, place_in_unit(kind, j)));
                }
            }
            false
        },
    }
}

/// The values of the filled cells of unit `n` of the given kind, in reading
/// order.
pub(crate) fn values_of_unit(data: &Vec<Option<Square>>, kind: EUnit, n: usize) -> (values: Vec<u8>)
    requires
        data@.len() == 81,
        n < 9,
    ensures
        values@ == unit_values(data@, kind, n as int, 9),
{
    let mut values: Vec<u8> = Vec::new();
    let mut k: usize = 0;
    while k < 9
        invariant
            k <= 9,
            n < 9,
            data@.len() == 81,
            values@ == unit_values(data@, kind, n as int, k as int),
        decreases 9 - k,
    {
        let j = cell_of_unit(kind, n, k);
        if let Some(p) = data[j] {
            values.push(p.value);
        }
        k += 1;
    }
    values
}

/// The values of the filled cells of each of the nine units of the given
/// kind.
pub(crate) fn values_of_units(data: &Vec<Option<Square>>, kind: EUnit) -> (result: Vec<Vec<u8>>)
    requires
        data@.len() == 81,
    ensures
        result@.len() == 9,
        forall|n: int| 0 <= n < 9 ==> (#[trigger] result@[n])@ == unit_values(data@, kind, n, 9),
{
    let mut result: Vec<Vec<u8>> = Vec::new();
    let mut n: usize = 0;
    while n < 9
        invariant
            n <= 9,
            data@.len() == 81,
            result@.len() == n,
            forall|m: int| 0 <= m < n ==> (#[trigger] result@[m])@ == unit_values(data@, kind, m, 9),
        decreases 9 - n,
    {
        let values = values_of_unit(data, kind, n);
        result.push(values);
        n += 1;
    }
    result
}

/// No value twice in a row.
pub struct HorizontalUniqueRule {}

impl HorizontalUniqueRule {
    /// `Conflict` if the square at `coordinate` meets its value again in its
    /// row, `Okay` if not.
    pub fn apply(coordinate: &Coordinate, board: &Board) -> (state: EGameState)
        requires
            board.wf(),
            coordinate.valid(),
        ensures
            state == if unit_conflict(board@.cells, EUnit::Row, coordinate.spec_index()) {
                EGameState::Conflict
            } else {
                EGameState::Okay
            },
    {
        if value_repeats(board.get_data(), EUnit::Row, coordinate.get_index()) {
            EGameState::Conflict
        } else {
            EGameState::Okay
        }
    }

    /// For each row, from the top, the values that it holds.
    pub fn get_disallowed_values(board: &Board) -> (result: Vec<Vec<u8>>)
        requires
            board.wf(),
        ensures
            result@.len() == 9,
            forall|n: int|
                0 <= n < 9 ==> (#[trigger] result@[n])@ == unit_values(
                    board@.cells,
                    EUnit::Row,
                    n,
                    9,
                ),
    {
        values_of_units(board.get_data(), EUnit::Row)
    }

    /// The values that the row of `coordinate` holds.
    pub fn get_forbidden_values(board: &Board, coordinate: &Coordinate) -> (values: Vec<u8>)
        requires
            board.wf(),
            coordinate.valid(),
        ensures
            values@ == unit_values(
                board@.cells,
                EUnit::Row,
                unit_of(EUnit::Row, coordinate.spec_index()),
                9,
            ),
    {
        values_of_unit(
            board.get_data(),
            EUnit::Row,
            unit_number(EUnit::Row, coordinate.get_index()),
        )
    }
}

/// No value twice in a column.
pub struct VerticalUniqueRule {}

impl VerticalUniqueRule {
    /// `Conflict` if the square at `coordinate` meets its value again in its
    /// column, `Okay` if not.
    pub fn apply(coordinate: &Coordinate, board: &Board) -> (state: EGameState)
        requires
            board.wf(),
            coordinate.valid(),
        ensures
            state == if unit_conflict(board@.cells, EUnit::Column, coordinate.spec_index()) {
                EGameState::Conflict
            } else {
                EGameState::Okay
            },
    {
        if value_repeats(board.get_data(), EUnit::Column, coordinate.get_index()) {
            EGameState::Conflict
        } else {
            EGameState::Okay
        }
    }

    /// For each column, from the left, the values that it holds.
    pub fn get_disallowed_values(board: &Board) -> (result: Vec<Vec<u8>>)
        requires
            board.wf(),
        ensures
            result@.len() == 9,
            forall|n: int|
                0 <= n < 9 ==> (#[trigger] result@[n])@ == unit_values(
                    board@.cells,
                    EUnit::Column,
                    n,
                    9,
                ),
    {
        values_of_units(board.get_data(), EUnit::Column)
    }

    /// The values that the column of `coordinate` holds.
    pub fn get_forbidden_values(board: &Board, coordinate: &Coordinate) -> (values: Vec<u8>)
        requires
            board.wf(),
            coordinate.valid(),
        ensures
            values@ == unit_values(
                board@.cells,
                EUnit::Column,
                unit_of(EUnit::Column, coordinate.spec_index()),
                9,
            ),
    {
        values_of_unit(
            board.get_data(),
            EUnit::Column,
            unit_number(EUnit::Column, coordinate.get_index()),
        )
    }
}

/// No value twice in a 3x3 quadrant.
pub struct QuadrantUniqueRule {}

impl QuadrantUniqueRule {
    /// `Conflict` if the square at `coordinate` meets its value again in its
    /// quadrant, `Okay` if not.
    pub fn apply(coordinate: &Coordinate, board: &Board) -> (state: EGameState)
        requires
            board.wf(),
            coordinate.valid(),
        ensures
            state == if unit_conflict(board@.cells, EUnit::Quadrant, coordinate.spec_index()) {
                EGameState::Conflict
            } else {
                EGameState::Okay
            },
    {
        if value_repeats(board.get_data(), EUnit::Quadrant, coordinate.get_index()) {
            EGameState::Conflict
        } else {
            EGameState::Okay
        }
    }

    /// For each quadrant, in reading order, the values that it holds.
    pub fn get_disallowed_values(board: &Board) -> (result: Vec<Vec<u8>>)
        requires
            board.wf(),
        ensures
            result@.len() == 9,
            forall|n: int|
                0 <= n < 9 ==> (#[trigger] result@[n])@ == unit_values(
                    board@.cells,
                    EUnit::Quadrant,
                    n,
                    9,
                ),
    {
        values_of_units(board.get_data(), EUnit::Quadrant)
    }

    /// The values that the quadrant of `coordinate` holds.
    pub fn get_forbidden_values(board: &Board, coordinate: &Coordinate) -> (values: Vec<u8>)
        requires
            board.wf(),
            coordinate.valid(),
        ensures
            values@ == unit_values(
                board@.cells,
                EUnit::Quadrant,
                unit_of(EUnit::Quadrant, coordinate.spec_index()),
                9,
            ),
    {
        values_of_unit(
            board.get_data(),
            EUnit::Quadrant,
            unit_number(EUnit::Quadrant, coordinate.get_index()),
        )
    }
}

/// Within the line (row or column) of cell `index`, `value` is possible
/// only inside the quadrant of that cell.
fn confined(v_board: &VirtualBoard, line: EUnit, index: usize, value: u8) -> (result: bool)
    requires
        v_board.wf(),
        index < 81,
    ensures
        result == confined_to_quadrant(v_board@, line, index as int, value),
{
    let data = v_board.get_data();
    let n = unit_number(line, index);
    let q = unit_number(EUnit::Quadrant, index);
    let mut k: usize = 0;
    while k < 9
        invariant
            k <= 9,
            n < 9,
            index < 81,
            n == unit_of(line, index as int),
            q == unit_of(EUnit::Quadrant, index as int),
            data@.len() == 81,
            v_board@.len() == 81,
            forall|i: int| 0 <= i < 81 ==> (#[trigger] data@[i])@ == v_board@[i],
            forall|k2: int|
                0 <= k2 < k && !same_quadrant(index as int, unit_cell(line, n as int, k2)) ==> !(
                #[trigger] v_board@[unit_cell(line, n as int, k2)]).values.contains(value),
        decreases 9 - k,
    {
        let j = cell_of_unit(line, n, k);
        proof {
            lemma_unit_cell_place(line, n as int, k as int);
            lemma_same_unit(line, index as int, j as int);
            lemma_same_unit(EUnit::Quadrant, index as int, j as int);
        }
        if unit_number(EUnit::Quadrant, j) != q {
            if data[j].has_possible_value(&value) {
                assert(v_board@[j as int].values.contains(value));
                return false;
            }
        }
        k += 1;
    }
    proof {
        assert forall|j: int|
            on_board(j) && same_unit(line, index as int, j) && !same_quadrant(
                index as int,
                j,
            ) implies !(#[trigger] v_board@[j]).values.contains(value) by {
            lemma_same_unit(line, index as int, j);
            lemma_cell_in_unit(line, j);
            assert(j == unit_cell(line, n as int, place_in_unit(line, j)));
        }
    }
    true
}

/// A value that, within a row or a column, is possible only inside one
/// quadrant must lie there, and so nowhere else in that quadrant.
pub struct RowQuadrantCombinationRule {}

impl RowQuadrantCombinationRule {
    /// Within the row of `coordinate`, `value` is possible only inside the
    /// quadrant of `coordinate`.
    pub fn is_exclusive_in_quadrant_horizontally(
        v_board: &VirtualBoard,
        coordinate: &Coordinate,
        value: &u8,
    ) -> (result: bool)
        requires
            v_board.wf(),
            coordinate.valid(),
        ensures
            result == confined_to_quadrant(v_board@, EUnit::Row, coordinate.spec_index(), *value),
    {
        confined(v_board, EUnit::Row, coordinate.get_index(), *value)
    }

    /// Within the column of `coordinate`, `value` is possible only inside
    /// the quadrant of `coordinate`.
    pub fn is_exclusive_in_quadrant_vertically(
        v_board: &VirtualBoard,
        coordinate: &Coordinate,
        value: &u8,
    ) -> (result: bool)
        requires
            v_board.wf(),
            coordinate.valid(),
        ensures
            result == confined_to_quadrant(
                v_board@,
                EUnit::Column,
                coordinate.spec_index(),
                *value,
            ),
    {
        confined(v_board, EUnit::Column, coordinate.get_index(), *value)
    }
}

/// The quadrant of a position is that of the third of its column and the
/// third of its row: quadrants are counted row by row.
pub proof fn lemma_quadrant_of_coordinate(coordinate: Coordinate)
    requires
        coordinate.valid(),
    ensures
        1 <= (coordinate.x + 2) / 3 <= 3,
        1 <= (coordinate.y + 2) / 3 <= 3,
        unit_of(EUnit::Quadrant, coordinate.spec_index()) == 3 * ((coordinate.y + 2) / 3 - 1) + ((
        coordinate.x + 2) / 3 - 1),
        forall|other: Coordinate|
            other.valid() ==> (#[trigger] same_quadrant(
                coordinate.spec_index(),
                other.spec_index(),
            ) <==> (coordinate.x + 2) / 3 == (other.x + 2) / 3 && (coordinate.y + 2) / 3 == (other.y
                + 2) / 3),
{
}

/// The third of the board, counted from 1, in which a row or column lies.
pub fn calculate_quadrant(x: u8) -> (quadrant: u8)
    ensures
        quadrant == (x + 2) / 3,
{
    if x % 3 == 0 {
        x / 3
    } else {
        x / 3 + 1
    }
}

} // verus!
