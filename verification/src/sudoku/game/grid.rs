//! The board as mathematics: 81 optional squares addressed by a flat,
//! row-major index, the three kinds of unit, and what it means for such a
//! grid to be in conflict, to be full and to have a completion.

use vstd::prelude::*;
use super::game_state::EGameState;
use super::square::Square;
use super::super::ai::values::{all_digits, lemma_distinct_digits_cover};

verus! {

/// The three kinds of unit in which a value may occur only once.
#[derive(Clone, Copy, Debug, PartialEq, Eq, Hash, Structural)]
pub enum EUnit {
    Row,
    Column,
    Quadrant,
}

/// `i` is the index of a cell.
pub open spec fn on_board(i: int) -> bool {
    0 <= i < 81
}

/// Cells `i` and `j` lie in the same row.
pub open spec fn same_row(i: int, j: int) -> bool {
    i / 9 == j / 9
}

/// Cells `i` and `j` lie in the same column.
pub open spec fn same_column(i: int, j: int) -> bool {
    i % 9 == j % 9
}

/// Cells `i` and `j` lie in the same third of the rows and in the same
/// third of the columns: in the same 3x3 quadrant.
pub open spec fn same_quadrant(i: int, j: int) -> bool {
    (i / 9) / 3 == (j / 9) / 3 && (i % 9) / 3 == (j % 9) / 3
}

/// Cells `i` and `j` share a unit of the given kind.
pub open spec fn same_unit(kind: EUnit, i: int, j: int) -> bool {
    match kind {
        EUnit::Row => same_row(i, j),
        EUnit::Column => same_column(i, j),
        EUnit::Quadrant => same_quadrant(i, j),
    }
}

/// Cells `i` and `j` share a row, a column or a quadrant.
pub open spec fn related(i: int, j: int) -> bool {
    same_row(i, j) || same_column(i, j) || same_quadrant(i, j)
}

/// The number, in `0..9`, of the unit of the given kind that cell `i` lies in.
pub open spec fn unit_of(kind: EUnit, i: int) -> int {
    match kind {
        EUnit::Row => i / 9,
        EUnit::Column => i % 9,
        EUnit::Quadrant => 3 * ((i / 9) / 3) + (i % 9) / 3,
    }
}

/// The `k`-th cell, in reading order, of unit number `n` of the given kind.
pub open spec fn unit_cell(kind: EUnit, n: int, k: int) -> int {
    match kind {
        EUnit::Row => 9 * n + k,
        EUnit::Column => 9 * k + n,
        EUnit::Quadrant => 9 * (3 * (n / 3) + k / 3) + (3 * (n % 3) + k % 3),
    }
}

/// The position, in `0..9`, that cell `i` has within its unit of the given kind.
pub open spec fn place_in_unit(kind: EUnit, i: int) -> int {
    match kind {
        EUnit::Row => i % 9,
        EUnit::Column => i / 9,
        EUnit::Quadrant => 3 * ((i / 9) % 3) + (i % 9) % 3,
    }
}

/// Cell `j` holds a square of value `v`.
pub open spec fn holds(cells: Seq<Option<Square>>, j: int, v: u8) -> bool {
    cells[j] matches Some(s) && s.value == v
}

/// Cells `i` and `j` are different and hold the same value.
pub open spec fn clash(cells: Seq<Option<Square>>, i: int, j: int) -> bool {
    i != j && (cells[i] matches Some(s) && holds(cells, j, s.value))
}

/// The square in cell `i` meets its value again in its unit of the given kind.
pub open spec fn unit_conflict(cells: Seq<Option<Square>>, kind: EUnit, i: int) -> bool {
    exists|j: int| on_board(j) && same_unit(kind, i, j) && #[trigger] clash(cells, i, j)
}

/// The square in cell `i` breaks one of the three uniqueness rules.
pub open spec fn conflict_at(cells: Seq<Option<Square>>, i: int) -> bool {
    unit_conflict(cells, EUnit::Row, i) || unit_conflict(cells, EUnit::Column, i) || unit_conflict(
        cells,
        EUnit::Quadrant,
        i,
    )
}

/// Some square of the grid breaks a rule.
pub open spec fn has_conflict(cells: Seq<Option<Square>>) -> bool {
    exists|i: int| on_board(i) && #[trigger] conflict_at(cells, i)
}

/// The number of filled cells among the first `n`.
pub open spec fn filled_upto(cells: Seq<Option<Square>>, n: int) -> nat
    decreases n,
{
    if n <= 0 {
        0
    } else {
        filled_upto(cells, n - 1) + if cells[n - 1] is Some {
            1nat
        } else {
            0nat
        }
    }
}

/// The number of filled cells of the grid.
pub open spec fn filled_count(cells: Seq<Option<Square>>) -> nat {
    filled_upto(cells, 81)
}

/// The number of empty cells of the grid.
pub open spec fn empty_count(cells: Seq<Option<Square>>) -> nat {
    (81 - filled_count(cells)) as nat
}

/// Every cell of the grid is filled.
pub open spec fn is_full(cells: Seq<Option<Square>>) -> bool {
    forall|i: int| on_board(i) ==> (#[trigger] cells[i]) is Some
}

/// The state of a grid: in conflict, else finished when full, else open.
pub open spec fn state_of(cells: Seq<Option<Square>>) -> EGameState {
    if has_conflict(cells) {
        EGameState::Conflict
    } else if filled_count(cells) == 81 {
        EGameState::Finished
    } else {
        EGameState::Okay
    }
}

/// The state that a placement at cell `i` reports: only the rules at `i`
/// are held against the grid, then the fill count.
pub open spec fn state_after_add(cells: Seq<Option<Square>>, i: int) -> EGameState {
    if conflict_at(cells, i) {
        EGameState::Conflict
    } else if filled_count(cells) == 81 {
        EGameState::Finished
    } else {
        EGameState::Okay
    }
}

/// Value `v` is already taken for cell `i`: a cell of its row, column or
/// quadrant holds it.
pub open spec fn seen(cells: Seq<Option<Square>>, i: int, v: u8) -> bool {
    exists|j: int| on_board(j) && related(i, j) && #[trigger] holds(cells, j, v)
}

/// Every square on the grid holds a digit from 1 to 9.
pub open spec fn valid_squares(cells: Seq<Option<Square>>) -> bool {
    forall|i: int| on_board(i) ==> ((#[trigger] cells[i]) matches Some(s) ==> 1 <= s.value <= 9)
}

/// `s` assigns a value to every cell: the value of the square where `cells`
/// has one, a digit where it has none, and no value twice in any unit.
pub open spec fn completes(s: Seq<u8>, cells: Seq<Option<Square>>) -> bool {
    &&& s.len() == 81
    &&& forall|i: int| on_board(i) && cells[i] is Some ==> cells[i]->0.value == #[trigger] s[i]
    &&& forall|i: int| on_board(i) && cells[i] is None ==> 1 <= #[trigger] s[i] <= 9
    &&& forall|i: int, j: int|
        on_board(i) && on_board(j) && i != j && #[trigger] related(i, j) ==> s[i] != s[j]
}

/// The grid can be filled up without breaking a rule.
pub open spec fn solvable(cells: Seq<Option<Square>>) -> bool {
    exists|s: Seq<u8>| #[trigger] completes(s, cells)
}

/// Every filled cell of `a` holds the same square in `b`.
pub open spec fn extends(b: Seq<Option<Square>>, a: Seq<Option<Square>>) -> bool {
    &&& a.len() == b.len()
    &&& forall|i: int| 0 <= i < a.len() && a[i] is Some ==> #[trigger] b[i] == a[i]
}

/// The values of the filled cells among the first `k` cells of unit `n` of
/// the given kind, in reading order.
pub open spec fn unit_values(cells: Seq<Option<Square>>, kind: EUnit, n: int, k: int) -> Seq<u8>
    decreases k,
{
    if k <= 0 {
        Seq::empty()
    } else {
        let rest = unit_values(cells, kind, n, k - 1);
        match cells[unit_cell(kind, n, k - 1)] {
            Some(s) => rest.push(s.value),
            None => rest,
        }
    }
}

/// A square that breaks a rule on one grid breaks it on every grid that
/// holds the same values.
pub proof fn lemma_unit_conflict_transfer(
    a: Seq<Option<Square>>,
    b: Seq<Option<Square>>,
    kind: EUnit,
    i: int,
)
    requires
        on_board(i),
        forall|j: int, v: u8| on_board(j) && #[trigger] holds(a, j, v) ==> holds(b, j, v),
        unit_conflict(a, kind, i),
    ensures
        unit_conflict(b, kind, i),
{
    let j = choose|j: int| on_board(j) && same_unit(kind, i, j) && #[trigger] clash(a, i, j);
    let v = a[i]->0.value;
    assert(holds(a, i, v));
    assert(holds(a, j, v));
    assert(holds(b, i, v));
    assert(holds(b, j, v));
    assert(clash(b, i, j));
}

/// Whether a square breaks a rule depends only on the values on the grid.
pub proof fn lemma_conflict_depends_on_values(
    a: Seq<Option<Square>>,
    b: Seq<Option<Square>>,
    i: int,
)
    requires
        on_board(i),
        forall|j: int, v: u8| on_board(j) ==> (#[trigger] holds(a, j, v) <==> holds(b, j, v)),
    ensures
        unit_conflict(a, EUnit::Row, i) == unit_conflict(b, EUnit::Row, i),
        unit_conflict(a, EUnit::Column, i) == unit_conflict(b, EUnit::Column, i),
        unit_conflict(a, EUnit::Quadrant, i) == unit_conflict(b, EUnit::Quadrant, i),
        conflict_at(a, i) == conflict_at(b, i),
{
    if unit_conflict(a, EUnit::Row, i) {
        lemma_unit_conflict_transfer(a, b, EUnit::Row, i);
    }
    if unit_conflict(b, EUnit::Row, i) {
        lemma_unit_conflict_transfer(b, a, EUnit::Row, i);
    }
    if unit_conflict(a, EUnit::Column, i) {
        lemma_unit_conflict_transfer(a, b, EUnit::Column, i);
    }
    if unit_conflict(b, EUnit::Column, i) {
        lemma_unit_conflict_transfer(b, a, EUnit::Column, i);
    }
    if unit_conflict(a, EUnit::Quadrant, i) {
        lemma_unit_conflict_transfer(a, b, EUnit::Quadrant, i);
    }
    if unit_conflict(b, EUnit::Quadrant, i) {
        lemma_unit_conflict_transfer(b, a, EUnit::Quadrant, i);
    }
}

/// Filling one more cell raises the fill count by one; emptying a filled
/// cell lowers it by one; replacing a square by a square keeps it.
pub proof fn lemma_filled_upto_update(
    cells: Seq<Option<Square>>,
    i: int,
    sq: Option<Square>,
    n: int,
)
    requires
        0 <= i < cells.len(),
        0 <= n <= cells.len(),
    ensures
        filled_upto(cells.update(i, sq), n) == filled_upto(cells, n) + (if i < n && sq is Some {
            1int
        } else {
            0int
        }) - (if i < n && cells[i] is Some {
            1int
        } else {
            0int
        }),
    decreases n,
{
    if n > 0 {
        lemma_filled_upto_update(cells, i, sq, n - 1);
    }
}

/// At most `n` of the first `n` cells are filled, and all `n` exactly when
/// none of them is empty.
pub proof fn lemma_filled_upto_bound(cells: Seq<Option<Square>>, n: int)
    requires
        0 <= n <= cells.len(),
    ensures
        filled_upto(cells, n) <= n,
        filled_upto(cells, n) == n <==> (forall|i: int| 0 <= i < n ==> (#[trigger] cells[i]) is Some),
    decreases n,
{
    if n > 0 {
        lemma_filled_upto_bound(cells, n - 1);
        if filled_upto(cells, n) == n {
            assert forall|i: int| 0 <= i < n implies (#[trigger] cells[i]) is Some by {
                if i < n - 1 {
                }
            }
        }
    }
}

/// At most `n` of the first `n` cells are counted as filled.
pub proof fn lemma_filled_upto_le(cells: Seq<Option<Square>>, n: int)
    requires
        0 <= n,
    ensures
        filled_upto(cells, n) <= n,
    decreases n,
{
    if n > 0 {
        lemma_filled_upto_le(cells, n - 1);
    }
}

/// The filled and the empty cells of a grid are 81 together.
pub proof fn lemma_empty_count(cells: Seq<Option<Square>>)
    ensures
        filled_count(cells) + empty_count(cells) == 81,
{
    lemma_filled_upto_le(cells, 81);
}

/// A square in an empty cell makes one filled cell more and one empty cell
/// less.
pub proof fn lemma_fill_empty_cell(cells: Seq<Option<Square>>, i: int, square: Square)
    requires
        cells.len() == 81,
        on_board(i),
        cells[i] is None,
    ensures
        filled_count(cells.update(i, Some(square))) == filled_count(cells) + 1,
        empty_count(cells.update(i, Some(square))) + 1 == empty_count(cells),
{
    lemma_filled_upto_update(cells, i, Some(square), 81);
    lemma_empty_count(cells);
    lemma_empty_count(cells.update(i, Some(square)));
}

/// A grid counts 81 filled cells exactly when it is full.
pub proof fn lemma_full_count(cells: Seq<Option<Square>>)
    requires
        cells.len() == 81,
    ensures
        filled_count(cells) <= 81,
        filled_count(cells) == 81 <==> is_full(cells),
{
    lemma_filled_upto_bound(cells, 81);
}

/// Each cell lies at its own place in its own unit.
pub proof fn lemma_cell_in_unit(kind: EUnit, i: int)
    requires
        on_board(i),
    ensures
        0 <= unit_of(kind, i) < 9,
        0 <= place_in_unit(kind, i) < 9,
        unit_cell(kind, unit_of(kind, i), place_in_unit(kind, i)) == i,
{
    let r = i / 9;
    let c = i % 9;
    assert(i == 9 * r + c);
    assert(r == 3 * (r / 3) + r % 3);
    assert(c == 3 * (c / 3) + c % 3);
    match kind {
        EUnit::Row => {},
        EUnit::Column => {},
        EUnit::Quadrant => {
            let n = 3 * (r / 3) + c / 3;
            let k = 3 * (r % 3) + c % 3;
            assert(n / 3 == r / 3);
            assert(n % 3 == c / 3);
            assert(k / 3 == r % 3);
            assert(k % 3 == c % 3);
        },
    }
}

/// The `k`-th cell of the `n`-th unit lies on the board, in that unit, at
/// place `k`.
pub proof fn lemma_unit_cell_place(kind: EUnit, n: int, k: int)
    requires
        0 <= n < 9,
        0 <= k < 9,
    ensures
        on_board(unit_cell(kind, n, k)),
        unit_of(kind, unit_cell(kind, n, k)) == n,
        place_in_unit(kind, unit_cell(kind, n, k)) == k,
{
    match kind {
        EUnit::Row => {},
        EUnit::Column => {},
        EUnit::Quadrant => {
            let r = 3 * (n / 3) + k / 3;
            let c = 3 * (n % 3) + k % 3;
            let j = 9 * r + c;
            assert(0 <= r < 9 && 0 <= c < 9);
            assert(j / 9 == r);
            assert(j % 9 == c);
            assert(r / 3 == n / 3);
            assert(r % 3 == k / 3);
            assert(c / 3 == n % 3);
            assert(c % 3 == k % 3);
            assert(n == 3 * (n / 3) + n % 3);
            assert(k == 3 * (k / 3) + k % 3);
        },
    }
}

/// Two cells share a unit exactly when they lie in the unit of the same
/// number.
pub proof fn lemma_same_unit(kind: EUnit, i: int, j: int)
    requires
        on_board(i),
        on_board(j),
    ensures
        same_unit(kind, i, j) <==> unit_of(kind, i) == unit_of(kind, j),
{
    match kind {
        EUnit::Row => {},
        EUnit::Column => {},
        EUnit::Quadrant => {
            let a = (i / 9) / 3;
            let b = (i % 9) / 3;
            let c = (j / 9) / 3;
            let d = (j % 9) / 3;
            assert(0 <= a < 3 && 0 <= b < 3 && 0 <= c < 3 && 0 <= d < 3);
            if 3 * a + b == 3 * c + d {
                assert(a == c);
            }
        },
    }
}

/// A unit lists value `v` exactly when one of its cells holds `v`.
pub proof fn lemma_unit_values_contains(
    cells: Seq<Option<Square>>,
    kind: EUnit,
    n: int,
    k: int,
    v: u8,
)
    requires
        0 <= k,
    ensures
        unit_values(cells, kind, n, k).contains(v) <==> exists|k2: int|
            0 <= k2 < k && holds(cells, #[trigger] unit_cell(kind, n, k2), v),
    decreases k,
{
    if k > 0 {
        lemma_unit_values_contains(cells, kind, n, k - 1, v);
        let rest = unit_values(cells, kind, n, k - 1);
        let all = unit_values(cells, kind, n, k);
        let j = unit_cell(kind, n, k - 1);
        if all.contains(v) {
            let m = choose|m: int| 0 <= m < all.len() && all[m] == v;
            if cells[j] is Some && m == rest.len() {
                assert(holds(cells, unit_cell(kind, n, k - 1), v));
            } else {
                assert(rest[m] == v);
                assert(rest.contains(v));
            }
        }
        if exists|k2: int| 0 <= k2 < k && holds(cells, #[trigger] unit_cell(kind, n, k2), v) {
            let k2 = choose|k2: int| 0 <= k2 < k && holds(cells, #[trigger] unit_cell(kind, n, k2), v);
            if k2 == k - 1 {
                assert(all[all.len() - 1] == v);
            } else {
                assert(rest.contains(v));
                let m = choose|m: int| 0 <= m < rest.len() && rest[m] == v;
                assert(all[m] == v);
            }
        }
    }
}

/// Some cell that shares the unit of the given kind with cell `i` holds `v`.
pub open spec fn seen_in_unit(cells: Seq<Option<Square>>, kind: EUnit, i: int, v: u8) -> bool {
    exists|j: int| on_board(j) && same_unit(kind, i, j) && #[trigger] holds(cells, j, v)
}

/// The unit of cell `i` lists value `v` exactly when a cell that shares the
/// unit with `i` holds `v`.
pub proof fn lemma_unit_values_seen(cells: Seq<Option<Square>>, kind: EUnit, i: int, v: u8)
    requires
        on_board(i),
    ensures
        unit_values(cells, kind, unit_of(kind, i), 9).contains(v) <==> seen_in_unit(
            cells,
            kind,
            i,
            v,
        ),
{
    let n = unit_of(kind, i);
    lemma_cell_in_unit(kind, i);
    lemma_unit_values_contains(cells, kind, n, 9, v);
    if unit_values(cells, kind, n, 9).contains(v) {
        let k2 = choose|k2: int| 0 <= k2 < 9 && holds(cells, #[trigger] unit_cell(kind, n, k2), v);
        let j = unit_cell(kind, n, k2);
        lemma_unit_cell_place(kind, n, k2);
        lemma_same_unit(kind, i, j);
        assert(holds(cells, j, v));
    }
    if seen_in_unit(cells, kind, i, v) {
        let j = choose|j: int| on_board(j) && same_unit(kind, i, j) && #[trigger] holds(cells, j, v);
        lemma_same_unit(kind, i, j);
        lemma_cell_in_unit(kind, j);
        assert(holds(cells, unit_cell(kind, n, place_in_unit(kind, j)), v));
    }
}

/// A value is taken for a cell exactly when one of its three units holds it.
pub proof fn lemma_seen_by_units(cells: Seq<Option<Square>>, i: int, v: u8)
    ensures
        seen(cells, i, v) <==> (seen_in_unit(cells, EUnit::Row, i, v) || seen_in_unit(
            cells,
            EUnit::Column,
            i,
            v,
        ) || seen_in_unit(cells, EUnit::Quadrant, i, v)),
{
    if seen(cells, i, v) {
        let j = choose|j: int| on_board(j) && related(i, j) && #[trigger] holds(cells, j, v);
        if same_row(i, j) {
            assert(same_unit(EUnit::Row, i, j));
        } else if same_column(i, j) {
            assert(same_unit(EUnit::Column, i, j));
        } else {
            assert(same_unit(EUnit::Quadrant, i, j));
        }
    }
    if seen_in_unit(cells, EUnit::Row, i, v) {
        let j = choose|j: int|
            on_board(j) && same_unit(EUnit::Row, i, j) && #[trigger] holds(cells, j, v);
        assert(related(i, j));
    }
    if seen_in_unit(cells, EUnit::Column, i, v) {
        let j = choose|j: int|
            on_board(j) && same_unit(EUnit::Column, i, j) && #[trigger] holds(cells, j, v);
        assert(related(i, j));
    }
    if seen_in_unit(cells, EUnit::Quadrant, i, v) {
        let j = choose|j: int|
            on_board(j) && same_unit(EUnit::Quadrant, i, j) && #[trigger] holds(cells, j, v);
        assert(related(i, j));
    }
}

/// Sharing a unit goes both ways, and so does holding the same value.
pub proof fn lemma_clash_symmetric(cells: Seq<Option<Square>>, kind: EUnit, i: int, j: int)
    ensures
        same_unit(kind, i, j) == same_unit(kind, j, i),
        related(i, j) == related(j, i),
        same_unit(kind, i, j) ==> related(i, j),
        clash(cells, i, j) == clash(cells, j, i),
{
}

/// A square that breaks no rule at its own cell, put into an empty cell of
/// a grid without conflict, leaves the grid without conflict.
pub proof fn lemma_placement_keeps_peace(cells: Seq<Option<Square>>, i: int, square: Square)
    requires
        on_board(i),
        cells[i] is None,
        !has_conflict(cells),
        !conflict_at(cells.update(i, Some(square)), i),
        cells.len() == 81,
    ensures
        !has_conflict(cells.update(i, Some(square))),
{
    let next = cells.update(i, Some(square));
    assert forall|a: int| on_board(a) implies !#[trigger] conflict_at(next, a) by {
        if a != i {
            assert(!conflict_at(cells, a));
            assert forall|kind: EUnit| !unit_conflict(next, kind, a) by {
                if unit_conflict(next, kind, a) {
                    let j = choose|j: int|
                        on_board(j) && same_unit(kind, a, j) && #[trigger] clash(next, a, j);
                    lemma_clash_symmetric(next, kind, a, j);
                    if j == i {
                        assert(clash(next, i, a));
                        assert(unit_conflict(next, kind, i));
                    } else {
                        assert(clash(cells, a, j));
                        assert(unit_conflict(cells, kind, a));
                    }
                }
            }
        }
    }
}

/// A grid that has a completion is without conflict.
pub proof fn lemma_completion_no_conflict(s: Seq<u8>, cells: Seq<Option<Square>>)
    requires
        completes(s, cells),
    ensures
        !has_conflict(cells),
{
    assert forall|a: int| on_board(a) implies !#[trigger] conflict_at(cells, a) by {
        assert forall|kind: EUnit| !unit_conflict(cells, kind, a) by {
            if unit_conflict(cells, kind, a) {
                let j = choose|j: int|
                    on_board(j) && same_unit(kind, a, j) && #[trigger] clash(cells, a, j);
                lemma_clash_symmetric(cells, kind, a, j);
                assert(related(a, j));
                assert(s[a] == cells[a]->0.value);
                assert(s[j] == cells[j]->0.value);
            }
        }
    }
}

/// What a completion assigns to an empty cell is a digit that no cell
/// sharing a unit with it holds.
pub proof fn lemma_completion_value_unseen(s: Seq<u8>, cells: Seq<Option<Square>>, i: int)
    requires
        completes(s, cells),
        on_board(i),
        cells[i] is None,
    ensures
        1 <= s[i] <= 9,
        !seen(cells, i, s[i]),
{
    if seen(cells, i, s[i]) {
        let j = choose|j: int| on_board(j) && related(i, j) && #[trigger] holds(cells, j, s[i]);
        assert(s[j] == cells[j]->0.value);
        assert(related(i, j));
    }
}

/// A completion of a grid completes it still after one of its values went
/// into an empty cell.
pub proof fn lemma_completion_survives(
    s: Seq<u8>,
    cells: Seq<Option<Square>>,
    i: int,
    square: Square,
)
    requires
        completes(s, cells),
        on_board(i),
        cells.len() == 81,
        cells[i] is None,
        square.value == s[i],
    ensures
        completes(s, cells.update(i, Some(square))),
{
    let next = cells.update(i, Some(square));
    assert forall|j: int| on_board(j) && next[j] is Some implies next[j]->0.value == #[trigger] s[j] by {
        if j != i {
            assert(cells[j] is Some);
        }
    }
    assert forall|j: int| on_board(j) && next[j] is None implies 1 <= #[trigger] s[j] <= 9 by {
        assert(cells[j] is None);
    }
}

/// A completion of a grid completes every grid that it extends.
pub proof fn lemma_completion_of_smaller(s: Seq<u8>, cells: Seq<Option<Square>>, i: int)
    requires
        completes(s, cells),
        on_board(i),
        cells.len() == 81,
        cells[i] is Some ==> 1 <= s[i] <= 9,
    ensures
        completes(s, cells.update(i, None)),
{
    let next = cells.update(i, None);
    assert forall|j: int| on_board(j) && next[j] is Some implies next[j]->0.value == #[trigger] s[j] by {
        assert(cells[j] is Some);
    }
    assert forall|j: int| on_board(j) && next[j] is None implies 1 <= #[trigger] s[j] <= 9 by {
        if j != i {
            assert(cells[j] is None);
        }
    }
}

/// The value at cell `i` of a grid that every Sudoku can be mapped to: the
/// first row counts from 1 to 9, each further row of a band is the one
/// above it shifted by three, and each band is the one above it shifted by
/// one.
pub open spec fn pattern_value(i: int) -> int {
    ((i % 9) + 3 * ((i / 9) % 3) + (i / 9) / 3) % 9 + 1
}

/// The pattern has no value twice in any unit.
pub proof fn lemma_pattern_valid(i: int, j: int)
    requires
        on_board(i),
        on_board(j),
        i != j,
        related(i, j),
    ensures
        pattern_value(i) != pattern_value(j),
{
    let r1 = i / 9;
    let c1 = i % 9;
    let r2 = j / 9;
    let c2 = j % 9;
    let a1 = r1 / 3;
    let b1 = r1 % 3;
    let a2 = r2 / 3;
    let b2 = r2 % 3;
    let d1 = c1 / 3;
    let e1 = c1 % 3;
    let d2 = c2 / 3;
    let e2 = c2 % 3;
    assert(r1 == 3 * a1 + b1 && r2 == 3 * a2 + b2 && c1 == 3 * d1 + e1 && c2 == 3 * d2 + e2);
    let x1 = c1 + 3 * b1 + a1;
    let x2 = c2 + 3 * b2 + a2;
    assert(0 <= x1 <= 16 && 0 <= x2 <= 16);
    assert(x1 != x2 && x1 != x2 + 9 && x2 != x1 + 9) by {
        if same_row(i, j) {
            assert(c1 != c2);
        } else if same_column(i, j) {
            assert(r1 != r2);
        } else {
            assert(a1 == a2 && d1 == d2);
        }
    }
    assert(x1 % 9 == if x1 >= 9 {
        x1 - 9
    } else {
        x1
    });
    assert(x2 % 9 == if x2 >= 9 {
        x2 - 9
    } else {
        x2
    });
}

/// The grid of which every cell is empty.
pub open spec fn empty_grid() -> Seq<Option<Square>> {
    Seq::new(81, |i: int| None::<Square>)
}

/// The pattern with its digits renamed: digit `d` becomes `first_row[d - 1]`.
pub open spec fn renamed_pattern(first_row: Seq<u8>) -> Seq<u8> {
    Seq::new(81, |i: int| first_row[pattern_value(i) - 1])
}

/// Nine different digits in a row begin a Sudoku.
pub proof fn lemma_first_row_solvable(first_row: Seq<u8>, cells: Seq<Option<Square>>)
    requires
        first_row.len() == 9,
        first_row.no_duplicates(),
        forall|k: int| 0 <= k < 9 ==> 1 <= #[trigger] first_row[k] <= 9,
        cells.len() == 81,
        forall|i: int| 0 <= i < 9 ==> holds(cells, i, #[trigger] first_row[i]),
        forall|i: int| 9 <= i < 81 ==> (#[trigger] cells[i]) is None,
    ensures
        completes(renamed_pattern(first_row), cells),
        solvable(cells),
{
    let s = renamed_pattern(first_row);
    assert forall|i: int, j: int|
        on_board(i) && on_board(j) && i != j && #[trigger] related(i, j) implies s[i] != s[j] by {
        lemma_pattern_valid(i, j);
        lemma_pattern_valid(j, i);
    }
    assert forall|i: int| on_board(i) && cells[i] is Some implies cells[i]->0.value == #[trigger] s[i] by {
        assert(i < 9);
        assert(pattern_value(i) == i + 1);
        assert(holds(cells, i, first_row[i]));
    }
    assert forall|i: int| on_board(i) && cells[i] is None implies 1 <= #[trigger] s[i] <= 9 by {
        assert(1 <= pattern_value(i) <= 9);
    }
    assert(completes(s, cells));
}

/// The empty grid can be filled up.
pub proof fn lemma_empty_grid_solvable()
    ensures
        solvable(empty_grid()),
{
    let s = renamed_pattern(all_digits());
    let cells = empty_grid();
    assert forall|i: int, j: int|
        on_board(i) && on_board(j) && i != j && #[trigger] related(i, j) implies s[i] != s[j] by {
        lemma_pattern_valid(i, j);
        lemma_pattern_valid(j, i);
    }
    assert forall|i: int| on_board(i) && cells[i] is None implies 1 <= #[trigger] s[i] <= 9 by {
        assert(1 <= pattern_value(i) <= 9);
    }
    assert(completes(s, cells));
}

/// A grid all of whose squares stand on a grid without conflict is without
/// conflict.
pub proof fn lemma_subgrid_keeps_peace(big: Seq<Option<Square>>, small: Seq<Option<Square>>)
    requires
        extends(big, small),
        !has_conflict(big),
        small.len() == 81,
    ensures
        !has_conflict(small),
{
    assert forall|a: int| on_board(a) implies !#[trigger] conflict_at(small, a) by {
        assert(!conflict_at(big, a));
        assert forall|kind: EUnit| !unit_conflict(small, kind, a) by {
            if unit_conflict(small, kind, a) {
                let j = choose|j: int|
                    on_board(j) && same_unit(kind, a, j) && #[trigger] clash(small, a, j);
                if 0 <= a < small.len() && 0 <= j < small.len() {
                    assert(big[a] == small[a]);
                    assert(big[j] == small[j]);
                    assert(clash(big, a, j));
                    assert(unit_conflict(big, kind, a));
                }
            }
        }
    }
}

/// The number of cells, among the first `k` of unit `n` of the given kind,
/// that hold value `v`.
pub open spec fn occurrences(cells: Seq<Option<Square>>, kind: EUnit, n: int, v: u8, k: int) -> nat
    decreases k,
{
    if k <= 0 {
        0
    } else {
        occurrences(cells, kind, n, v, k - 1) + if holds(cells, unit_cell(kind, n, k - 1), v) {
            1nat
        } else {
            0nat
        }
    }
}

/// Every row, every column and every quadrant holds each digit from 1 to 9
/// exactly once.
pub open spec fn each_unit_complete(cells: Seq<Option<Square>>) -> bool {
    forall|kind: EUnit, n: int, v: u8|
        0 <= n < 9 && 1 <= v <= 9 ==> #[trigger] occurrences(cells, kind, n, v, 9) == 1
}

/// A value that two different places of a unit hold occurs there at least
/// twice, and a value that occurs in a unit is held by one of its places.
pub proof fn lemma_occurrences(
    cells: Seq<Option<Square>>,
    kind: EUnit,
    n: int,
    v: u8,
    k: int,
)
    requires
        0 <= k,
    ensures
        occurrences(cells, kind, n, v, k) <= k,
        occurrences(cells, kind, n, v, k) >= 1 ==> exists|p: int|
            0 <= p < k && holds(cells, #[trigger] unit_cell(kind, n, p), v),
        forall|p: int|
            0 <= p < k && holds(cells, #[trigger] unit_cell(kind, n, p), v) ==> occurrences(
                cells,
                kind,
                n,
                v,
                k,
            ) >= 1,
        forall|p: int, q: int|
            0 <= p < q < k && holds(cells, #[trigger] unit_cell(kind, n, p), v) && holds(
                cells,
                #[trigger] unit_cell(kind, n, q),
                v,
            ) ==> occurrences(cells, kind, n, v, k) >= 2,
    decreases k,
{
    if k > 0 {
        lemma_occurrences(cells, kind, n, v, k - 1);
        if occurrences(cells, kind, n, v, k) >= 1 {
            if holds(cells, unit_cell(kind, n, k - 1), v) {
            } else {
                let p = choose|p: int|
                    0 <= p < k - 1 && holds(cells, #[trigger] unit_cell(kind, n, p), v);
                assert(holds(cells, unit_cell(kind, n, p), v));
            }
        }
    }
}

/// A grid of which every row, column and quadrant holds each digit exactly
/// once is full and without conflict: its state is `Finished`.
pub proof fn lemma_complete_grid_is_finished(cells: Seq<Option<Square>>)
    requires
        cells.len() == 81,
        each_unit_complete(cells),
    ensures
        is_full(cells),
        !has_conflict(cells),
        state_of(cells) == EGameState::Finished,
{
    assert forall|i: int| on_board(i) implies (#[trigger] cells[i]) is Some by {
        lemma_cell_in_unit(EUnit::Row, i);
        let n = unit_of(EUnit::Row, i);
        let p = place_in_unit(EUnit::Row, i);
        lemma_places_all_taken(cells, EUnit::Row, n, p);
        let v = choose|v: u8| 1 <= v <= 9 && #[trigger] holds(cells, unit_cell(EUnit::Row, n, p), v);
    }
    assert forall|a: int| on_board(a) implies !#[trigger] conflict_at(cells, a) by {
        assert forall|kind: EUnit| !unit_conflict(cells, kind, a) by {
            if unit_conflict(cells, kind, a) {
                let j = choose|j: int|
                    on_board(j) && same_unit(kind, a, j) && #[trigger] clash(cells, a, j);
                lemma_cell_in_unit(kind, a);
                lemma_cell_in_unit(kind, j);
                lemma_same_unit(kind, a, j);
                let n = unit_of(kind, a);
                let pa = place_in_unit(kind, a);
                let pj = place_in_unit(kind, j);
                lemma_places_all_taken(cells, kind, n, pa);
                let v = choose|v: u8| 1 <= v <= 9 && #[trigger] holds(cells, unit_cell(kind, n, pa), v);
                assert(holds(cells, unit_cell(kind, n, pj), v));
                lemma_occurrences(cells, kind, n, v, 9);
                if pa < pj {
                    assert(occurrences(cells, kind, n, v, 9) >= 2);
                } else {
                    assert(pj < pa);
                    assert(occurrences(cells, kind, n, v, 9) >= 2);
                }
            }
        }
    }
    lemma_full_count(cells);
}

/// In a unit that holds each digit exactly once, every place holds a digit.
pub proof fn lemma_places_all_taken(cells: Seq<Option<Square>>, kind: EUnit, n: int, p: int)
    requires
        each_unit_complete(cells),
        0 <= n < 9,
        0 <= p < 9,
    ensures
        exists|v: u8| 1 <= v <= 9 && #[trigger] holds(cells, unit_cell(kind, n, p), v),
{
    // the place, counted from 1, at which each digit lies: nine different places
    let place = |d: int|
        choose|q: int| 0 <= q < 9 && holds(cells, #[trigger] unit_cell(kind, n, q), (d + 1) as u8);
    let places = Seq::new(9, |d: int| (place(d) + 1) as u8);
    assert forall|d: int| 0 <= d < 9 implies 0 <= place(d) < 9 && holds(
        cells,
        unit_cell(kind, n, #[trigger] place(d)),
        (d + 1) as u8,
    ) by {
        let v = (d + 1) as u8;
        assert(occurrences(cells, kind, n, v, 9) == 1);
        lemma_occurrences(cells, kind, n, v, 9);
    }
    assert forall|a: int| 0 <= a < places.len() implies 1 <= #[trigger] places[a] <= 9 by {
        assert(0 <= place(a) < 9);
    }
    assert forall|a: int, b: int|
        0 <= a < places.len() && 0 <= b < places.len() && a != b implies places[a] != places[b] by {
        assert(0 <= place(a) < 9 && 0 <= place(b) < 9);
        assert(holds(cells, unit_cell(kind, n, place(a)), (a + 1) as u8));
        assert(holds(cells, unit_cell(kind, n, place(b)), (b + 1) as u8));
    }
    lemma_distinct_digits_cover(places, (p + 1) as u8);
    let d = choose|d: int| 0 <= d < places.len() && places[d] == (p + 1) as u8;
    assert(0 <= place(d) < 9);
    assert(place(d) == p);
    assert(holds(cells, unit_cell(kind, n, p), (d + 1) as u8));
}

} // verus!
