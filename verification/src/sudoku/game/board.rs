use vstd::prelude::*;
use super::coordinate::Coordinate;
use super::error::EError;
use super::game_state::EGameState;
use super::grid::{
    conflict_at, filled_count, filled_upto, has_conflict, holds, is_full,
    lemma_conflict_depends_on_values, lemma_full_count, on_board, state_after_add, state_of, EUnit,
};
use super::rule::{HorizontalUniqueRule, QuadrantUniqueRule, VerticalUniqueRule};
use super::square::Square;

verus! {

/// What a board is, apart from how it is stored.
pub struct BoardView {
    /// The 81 cells in row-major order.
    pub cells: Seq<Option<Square>>,
    /// The coordinates of the placements made since setup, oldest first.
    pub history: Seq<Coordinate>,
    /// Setup is over and the game is on.
    pub initialized: bool,
}

impl BoardView {
    /// There are 81 cells, and the history names positions of the board.
    pub open spec fn wf(self) -> bool {
        &&& self.cells.len() == 81
        &&& forall|k: int| 0 <= k < self.history.len() ==> (#[trigger] self.history[k]).valid()
    }

    /// The square at a position; none for a position off the board.
    pub open spec fn square_at(self, coord: Coordinate) -> Option<Square> {
        if coord.valid() {
            self.cells[coord.spec_index()]
        } else {
            None
        }
    }

    /// A square may be placed only in its own phase: squares of the puzzle
    /// during setup, all others in play.
    pub open spec fn phase_admits(self, square: Square) -> bool {
        square.initial != self.initialized
    }

    /// The board after `square` went into the empty cell at `coord`.
    pub open spec fn filled(self, coord: Coordinate, square: Square) -> BoardView {
        BoardView {
            cells: self.cells.update(coord.spec_index(), Some(square)),
            history: if self.initialized {
                self.history.push(coord)
            } else {
                self.history
            },
            initialized: self.initialized,
        }
    }

    /// The board after the cell at `coord` was emptied.
    pub open spec fn cleared(self, coord: Coordinate) -> BoardView {
        BoardView { cells: self.cells.update(coord.spec_index(), None), ..self }
    }

    /// The board after the last placement was taken back: the history loses
    /// its last entry, and the cell that it names is emptied unless it holds
    /// a square of the puzzle.
    pub open spec fn undone(self) -> BoardView {
        if self.history.len() == 0 {
            self
        } else {
            let coord = self.history.last();
            BoardView {
                cells: match self.cells[coord.spec_index()] {
                    Some(s) if !s.initial => self.cells.update(coord.spec_index(), None),
                    _ => self.cells,
                },
                history: self.history.drop_last(),
                initialized: self.initialized,
            }
        }
    }

    /// The board with every square gone that is not part of the puzzle.
    pub open spec fn reverted(self) -> BoardView {
        BoardView {
            cells: Seq::new(
                self.cells.len(),
                |i: int|
                    match self.cells[i] {
                        Some(s) if s.initial => Some(s),
                        _ => None,
                    },
            ),
            ..self
        }
    }

    /// The board with the conflict mark of every square taken off.
    pub open spec fn unmarked(self) -> BoardView {
        BoardView {
            cells: Seq::new(
                self.cells.len(),
                |i: int|
                    match self.cells[i] {
                        Some(s) => Some(Square { conflict: false, ..s }),
                        None => None,
                    },
            ),
            ..self
        }
    }

    /// The board with the conflict mark of every square set to what the
    /// rules say of it.
    pub open spec fn marked(self) -> BoardView {
        BoardView {
            cells: Seq::new(
                self.cells.len(),
                |i: int|
                    match self.cells[i] {
                        Some(s) => Some(Square { conflict: conflict_at(self.cells, i), ..s }),
                        None => None,
                    },
            ),
            ..self
        }
    }
}

/// The 81 cells of a Sudoku, the placements made since setup, and the phase.
#[derive(Debug, PartialEq)]
pub struct Board {
    data: Vec<Option<Square>>,
    turn_history: Vec<Coordinate>,
    initialized: bool,
}

impl View for Board {
    type V = BoardView;

    closed spec fn view(&self) -> BoardView {
        BoardView {
            cells: self.data@,
            history: self.turn_history@,
            initialized: self.initialized,
        }
    }
}

impl Clone for Board {
    fn clone(&self) -> (res: Self)
        ensures
            res@ == self@,
    {
        let res = Board {
            data: self.data.clone(),
            turn_history: self.turn_history.clone(),
            initialized: self.initialized,
        };
        assert(res.data@ =~= self.data@);
        assert(res.turn_history@ =~= self.turn_history@);
        res
    }
}

impl Board {
    /// What every operation of a board keeps: see `BoardView::wf`.
    pub open spec fn wf(&self) -> bool {
        self@.wf()
    }

    /// What `Board::new` makes: 81 empty cells in the setup phase.
    pub open spec fn new_view() -> BoardView {
        BoardView {
            cells: Seq::new(81, |i: int| None::<Square>),
            history: Seq::<Coordinate>::empty(),
            initialized: false,
        }
    }

    /// An empty board in its setup phase.
    pub fn new() -> (board: Self)
        ensures
            board.wf(),
            board@ == Self::new_view(),
    {
        let mut vec: Vec<Option<Square>> = Vec::new();
        let mut i: usize = 0;
        while i < 81
            invariant
                i <= 81,
                vec@.len() == i,
                forall|j: int| 0 <= j < i ==> vec@[j] == None::<Square>,
            decreases 81 - i,
        {
            vec.push(None);
            i += 1;
        }
        let board = Board { data: vec, turn_history: Vec::new(), initialized: false };
        assert(board@.cells =~= Self::new_view().cells);
        board
    }

    /// A board in its setup phase with the given cells.
    pub fn from_vec(vec: Vec<Option<Square>>) -> (board: Self)
        requires
            vec@.len() == 81,
        ensures
            board.wf(),
            board@.cells == vec@,
            board@.history == Seq::<Coordinate>::empty(),
            !board@.initialized,
    {
        Board { data: vec, turn_history: Vec::new(), initialized: false }
    }

    /// Puts `square` into the cell at `coord`.
    ///
    /// A square that does not belong to the phase of the board is refused,
    /// then a square for a cell that is taken. Otherwise the square goes in,
    /// a board in play records the placement, and the state that comes back
    /// is that of the rules at `coord` and of the fill count.
    pub fn fill_square(&mut self, coord: Coordinate, square: Square) -> (result: Result<
        EGameState,
        EError,
    >)
        requires
            old(self).wf(),
            coord.valid(),
        ensures
            final(self).wf(),
            !old(self)@.phase_admits(square) ==> result == Err::<EGameState, EError>(
                EError::PhaseViolation,
            ),
            old(self)@.phase_admits(square) && old(self)@.square_at(coord) is Some ==> result
                == Err::<EGameState, EError>(EError::CellOccupied),
            old(self)@.phase_admits(square) && old(self)@.square_at(coord) is None ==> result
                == Ok::<EGameState, EError>(
                state_after_add(final(self)@.cells, coord.spec_index()),
            ),
            result is Err ==> final(self)@ == old(self)@,
            result is Ok ==> final(self)@ == old(self)@.filled(coord, square),
    {
        if self.initialized == square.initial {
            return Err(EError::PhaseViolation);
        }
        let index = coord.get_index();
        if self.data[index].is_some() {
            return Err(EError::CellOccupied);
        }
        self.data.set(index, Some(square));
        if self.initialized {
            self.turn_history.push(coord);
        }
        proof {
            assert(self@ == old(self)@.filled(coord, square));
            assert forall|k: int| 0 <= k < self@.history.len() implies (
            #[trigger] self@.history[k]).valid() by {
                if k < old(self)@.history.len() {
                    assert(old(self)@.history[k].valid());
                }
            }
        }
        Ok(Board::evaluate_after_add(self, &coord))
    }

    /// Empties the cell at `coord`, unless it holds a square of the puzzle.
    /// The state that comes back is that of the whole board.
    pub fn delete_square(&mut self, coord: &Coordinate) -> (result: Result<EGameState, EError>)
        requires
            old(self).wf(),
            coord.valid(),
        ensures
            final(self).wf(),
            result == (match old(self)@.square_at(*coord) {
                Some(s) if s.initial => Err::<EGameState, EError>(EError::DeleteInitialForbidden),
                _ => Ok::<EGameState, EError>(state_of(final(self)@.cells)),
            }),
            result is Err ==> final(self)@ == old(self)@,
            result is Ok ==> final(self)@ == old(self)@.cleared(*coord),
    {
        let index = coord.get_index();
        match self.data[index] {
            Some(p) => {
                if p.initial {
                    return Err(EError::DeleteInitialForbidden);
                }
            },
            None => (),
        }
        self.data.set(index, None);
        assert(self@.history == old(self)@.history);
        Ok(self.get_state())
    }

    /// Empties the cell at `coord`, whatever it holds.
    pub fn delete_force(&mut self, coordinate: &Coordinate)
        requires
            old(self).wf(),
            coordinate.valid(),
        ensures
            final(self).wf(),
            final(self)@ == old(self)@.cleared(*coordinate),
    {
        self.data.set(coordinate.get_index(), None);
        assert(self@.history == old(self)@.history);
    }

    /// Takes the last placement back, if there is one.
    pub fn undo_last(&mut self)
        requires
            old(self).wf(),
        ensures
            final(self).wf(),
            final(self)@ == old(self)@.undone(),
    {
        match self.turn_history.pop() {
            None => {
                assert(self.turn_history@ =~= old(self).turn_history@);
            },
            Some(coord) => {
                assert(old(self)@.history[old(self)@.history.len() - 1].valid());
                let index = coord.get_index();
                match self.data[index] {
                    Some(p) => {
                        if !p.initial {
                            self.data.set(index, None);
                        }
                    },
                    None => (),
                }
            },
        }
    }

    /// Removes every square that is not part of the puzzle.
    pub fn revert(&mut self)
        requires
            old(self).wf(),
        ensures
            final(self).wf(),
            final(self)@ == old(self)@.reverted(),
    {
        let mut i: usize = 0;
        while i < 81
            invariant
                i <= 81,
                self.data@.len() == 81,
                old(self).data@.len() == 81,
                self.turn_history@ == old(self).turn_history@,
                self.initialized == old(self).initialized,
                forall|j: int| 0 <= j < i ==> self.data@[j] == old(self)@.reverted().cells[j],
                forall|j: int| i <= j < 81 ==> self.data@[j] == old(self).data@[j],
            decreases 81 - i,
        {
            match self.data[i] {
                Some(p) => {
                    if !p.initial {
                        self.data.set(i, None);
                    }
                },
                None => (),
            }
            i += 1;
        }
        assert(self.data@ =~= old(self)@.reverted().cells);
    }

    /// The square at `coord`; none for a position off the board.
    pub fn get_square(&self, coord: &Coordinate) -> (square: &Option<Square>)
        requires
            self.wf(),
        ensures
            *square == self@.square_at(*coord),
    {
        if coord.is_valid() {
            &self.data[coord.get_index()]
        } else {
            &None
        }
    }

    /// The cells in row-major order.
    pub fn get_data(&self) -> (data: &Vec<Option<Square>>)
        requires
            self.wf(),
        ensures
            data@ == self@.cells,
            data@.len() == 81,
    {
        &self.data
    }

    /// Ends the setup phase, or begins it again.
    pub fn initialized(&mut self, init: bool)
        requires
            old(self).wf(),
        ensures
            final(self).wf(),
            final(self)@ == (BoardView { initialized: init, ..old(self)@ }),
    {
        self.initialized = init;
    }

    /// Setup is over.
    pub fn is_initialized(&self) -> (init: bool)
        requires
            self.wf(),
        ensures
            init == self@.initialized,
    {
        self.initialized
    }

    /// Takes the conflict mark off every square, then holds every square
    /// against the three rules and marks those that break one.
    pub fn mark_conflicts(&mut self)
        requires
            old(self).wf(),
        ensures
            final(self).wf(),
            final(self)@ == old(self)@.marked(),
    {
        self.reset_conflicts();
        let mut i: usize = 0;
        while i < 81
            invariant
                i <= 81,
                self.data@.len() == 81,
                old(self).data@.len() == 81,
                self.turn_history@ == old(self).turn_history@,
                self.initialized == old(self).initialized,
                forall|j: int| 0 <= j < i ==> self.data@[j] == old(self)@.marked().cells[j],
                forall|j: int| i <= j < 81 ==> self.data@[j] == old(self)@.unmarked().cells[j],
            decreases 81 - i,
        {
            match self.data[i] {
                Some(p) => {
                    proof {
                        assert forall|j: int, v: u8| on_board(j) implies (#[trigger] holds(
                            self.data@,
                            j,
                            v,
                        ) <==> holds(old(self).data@, j, v)) by {
                            if j < i {
                                assert(self.data@[j] == old(self)@.marked().cells[j]);
                            } else {
                                assert(self.data@[j] == old(self)@.unmarked().cells[j]);
                            }
                        }
                        lemma_conflict_depends_on_values(self.data@, old(self).data@, i as int);
                    }
                    if Board::conflict_at_index(&self.data, i) {
                        self.data.set(
                            i,
                            Some(
                                Square {
                                    value: p.value,
                                    initial: p.initial,
                                    conflict: true,
                                    generated: p.generated,
                                    guessed: p.guessed,
                                },
                            ),
                        );
                    }
                },
                None => (),
            }
            i += 1;
        }
        assert(self.data@ =~= old(self)@.marked().cells);
    }

    /// Takes the conflict mark off every square.
    fn reset_conflicts(&mut self)
        requires
            old(self).wf(),
        ensures
            final(self).wf(),
            final(self)@ == old(self)@.unmarked(),
    {
        let mut i: usize = 0;
        while i < 81
            invariant
                i <= 81,
                self.data@.len() == 81,
                old(self).data@.len() == 81,
                self.turn_history@ == old(self).turn_history@,
                self.initialized == old(self).initialized,
                forall|j: int| 0 <= j < i ==> self.data@[j] == old(self)@.unmarked().cells[j],
                forall|j: int| i <= j < 81 ==> self.data@[j] == old(self).data@[j],
            decreases 81 - i,
        {
            match self.data[i] {
                Some(p) => {
                    self.data.set(
                        i,
                        Some(
                            Square {
                                value: p.value,
                                initial: p.initial,
                                conflict: false,
                                generated: p.generated,
                                guessed: p.guessed,
                            },
                        ),
                    );
                },
                None => (),
            }
            i += 1;
        }
        assert(self.data@ =~= old(self)@.unmarked().cells);
    }

    /// Some square breaks a rule.
    pub fn has_conflicts(&self) -> (conflicts: bool)
        requires
            self.wf(),
        ensures
            conflicts == has_conflict(self@.cells),
    {
        let mut i: usize = 0;
        while i < 81
            invariant
                i <= 81,
                self.data@.len() == 81,
                forall|j: int| 0 <= j < i ==> !conflict_at(self.data@, j),
            decreases 81 - i,
        {
            if Board::conflict_at_index(&self.data, i) {
                assert(on_board(i as int));
                return true;
            }
            i += 1;
        }
        false
    }

    /// All 81 cells are filled.
    pub fn is_filled(&self) -> (filled: bool)
        requires
            self.wf(),
        ensures
            filled == (filled_count(self@.cells) == 81),
            filled == is_full(self@.cells),
    {
        proof {
            lemma_full_count(self@.cells);
        }
        81 == self.get_size()
    }

    /// In conflict; else finished, if full; else open.
    pub fn get_state(&self) -> (state: EGameState)
        requires
            self.wf(),
        ensures
            state == state_of(self@.cells),
    {
        if self.has_conflicts() {
            EGameState::Conflict
        } else if self.is_filled() {
            EGameState::Finished
        } else {
            EGameState::Okay
        }
    }

    /// The number of filled cells.
    pub fn get_size(&self) -> (size: usize)
        requires
            self.wf(),
        ensures
            size == filled_count(self@.cells),
            size <= 81,
    {
        let mut count: usize = 0;
        let mut i: usize = 0;
        while i < 81
            invariant
                i <= 81,
                self.data@.len() == 81,
                count == filled_upto(self.data@, i as int),
                count <= i,
            decreases 81 - i,
        {
            if self.data[i].is_some() {
                count += 1;
            }
            i += 1;
        }
        count
    }

    /// The square at cell `index` breaks one of the three rules.
    fn conflict_at_index(data: &Vec<Option<Square>>, index: usize) -> (conflict: bool)
        requires
            data@.len() == 81,
            index < 81,
        ensures
            conflict == conflict_at(data@, index as int),
    {
        super::rule::value_repeats(data, EUnit::Row, index) || super::rule::value_repeats(
            data,
            EUnit::Column,
            index,
        ) || super::rule::value_repeats(data, EUnit::Quadrant, index)
    }

    /// The state after a placement at `coordinate`: the three rules at that
    /// cell, then the fill count.
    fn evaluate_after_add(board: &Board, coordinate: &Coordinate) -> (state: EGameState)
        requires
            board.wf(),
            coordinate.valid(),
        ensures
            state == state_after_add(board@.cells, coordinate.spec_index()),
    {
        if let EGameState::Conflict = HorizontalUniqueRule::apply(coordinate, board) {
            return EGameState::Conflict;
        }
        if let EGameState::Conflict = VerticalUniqueRule::apply(coordinate, board) {
            return EGameState::Conflict;
        }
        if let EGameState::Conflict = QuadrantUniqueRule::apply(coordinate, board) {
            return EGameState::Conflict;
        }
        if board.is_filled() {
            return EGameState::Finished;
        }
        EGameState::Okay
    }
}

/// A board holds at most one square per position: its cells are 81 optional
/// squares, each valid position stands for one of them, and no two
/// positions for the same.
pub proof fn lemma_one_square_per_coordinate(b: BoardView, c1: Coordinate, c2: Coordinate)
    requires
        b.wf(),
        c1.valid(),
        c2.valid(),
    ensures
        b.cells.len() == 81,
        0 <= c1.spec_index() < 81,
        b.square_at(c1) == b.cells[c1.spec_index()],
        c1.spec_index() == c2.spec_index() <==> c1 == c2,
{
}

/// Placing a square never replaces one: on a cell that is taken the board
/// stays as it is, and on an empty cell every other cell stays as it is.
pub proof fn lemma_placement_spares_the_rest(
    b: BoardView,
    coord: Coordinate,
    square: Square,
    other: Coordinate,
)
    requires
        b.wf(),
        coord.valid(),
        other.valid(),
        other != coord,
    ensures
        b.filled(coord, square).wf(),
        b.filled(coord, square).square_at(coord) == Some(square),
        b.filled(coord, square).square_at(other) == b.square_at(other),
{
    let next = b.filled(coord, square);
    assert forall|k: int| 0 <= k < next.history.len() implies (#[trigger] next.history[k]).valid() by {
        if k < b.history.len() {
            assert(b.history[k].valid());
        }
    }
}

/// Taking back a placement that was just made gives the board as it was
/// before the placement: cells, history and phase.
pub proof fn lemma_undo_restores(b: BoardView, coord: Coordinate, square: Square)
    requires
        b.wf(),
        b.initialized,
        coord.valid(),
        b.phase_admits(square),
        b.square_at(coord) is None,
    ensures
        b.filled(coord, square).undone() == b,
{
    let next = b.filled(coord, square);
    assert(next.history.last() == coord);
    assert(next.history.drop_last() =~= b.history);
    assert(next.cells.update(coord.spec_index(), None) =~= b.cells);
}

} // verus!
