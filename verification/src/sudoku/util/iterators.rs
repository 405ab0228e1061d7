use vstd::prelude::*;
use std::ops::Range;

verus! {

/// Walks the positions of the board in row-major order.
pub struct BoardIterator {
    x: u8,
    next_x: u8,
    y: u8,
    next_y: u8,
}

impl BoardIterator {
    /// The next position lies on the board, or just behind its last row.
    pub closed spec fn wf(&self) -> bool {
        &&& 1 <= self.next_x <= 9
        &&& 1 <= self.next_y <= 10
        &&& self.next_y == 10 ==> self.next_x == 1
    }

    /// The number of positions handed out so far.
    pub closed spec fn position(&self) -> int {
        9 * (self.next_y - 1) + (self.next_x - 1)
    }

    /// The next position as column and row, both counted from 1; none once
    /// all 81 were handed out.
    pub fn next(&mut self) -> (item: Option<(u8, u8)>)
        requires
            old(self).wf(),
        ensures
            final(self).wf(),
            0 <= old(self).position() <= 81,
            old(self).position() < 81 ==> item == Some(
                ((old(self).position() % 9 + 1) as u8, (old(self).position() / 9 + 1) as u8),
            ) && final(self).position() == old(self).position() + 1,
            old(self).position() == 81 ==> item is None && final(self).position() == 81,
    {
        self.x = self.next_x;
        self.y = self.next_y;
        if self.next_y == 10 {
            return None;
        }
        if self.x < 9 {
            self.next_x = self.x + 1;
        } else {
            self.next_x = 1;
            self.next_y = self.y + 1;
        }
        Some((self.x, self.y))
    }
}

/// An iterator at the first position of the board.
pub fn board_iterator() -> (iterator: BoardIterator)
    ensures
        iterator.wf(),
        iterator.position() == 0,
{
    BoardIterator { x: 1, next_x: 1, y: 1, next_y: 1 }
}

/// Walks the nine quadrants of the board in reading order.
pub struct QuadrantIterator {
    x: u8,
    next_x: u8,
    y: u8,
    next_y: u8,
}

impl QuadrantIterator {
    /// The next quadrant lies on the board, or just behind its last row.
    pub closed spec fn wf(&self) -> bool {
        &&& 1 <= self.next_x <= 3
        &&& 1 <= self.next_y <= 4
        &&& self.next_y == 4 ==> self.next_x == 1
    }

    /// The number of quadrants handed out so far.
    pub closed spec fn position(&self) -> int {
        3 * (self.next_y - 1) + (self.next_x - 1)
    }

    /// An iterator over the squares of the next quadrant; none once all
    /// nine were handed out.
    pub fn next(&mut self) -> (item: Option<QuadrantSquaresIterator>)
        requires
            old(self).wf(),
        ensures
            final(self).wf(),
            0 <= old(self).position() <= 9,
            old(self).position() < 9 ==> (item matches Some(squares) && squares.wf()
                && squares.position() == 0 && squares.column() == old(self).position() % 3 + 1
                && squares.row() == old(self).position() / 3 + 1) && final(self).position() == old(
                self,
            ).position() + 1,
            old(self).position() == 9 ==> item is None && final(self).position() == 9,
    {
        self.x = self.next_x;
        self.y = self.next_y;
        if self.next_y == 4 {
            return None;
        }
        if self.x < 3 {
            self.next_x = self.x + 1;
        } else {
            self.next_x = 1;
            self.next_y = self.y + 1;
        }
        Some(quadrant_squares_iterator(self.x, self.y))
    }
}

/// An iterator at the first quadrant of the board.
pub fn quadrant_iterator() -> (iterator: QuadrantIterator)
    ensures
        iterator.wf(),
        iterator.position() == 0,
{
    QuadrantIterator { x: 1, next_x: 1, y: 1, next_y: 1 }
}

/// Walks the nine positions of one quadrant in reading order.
pub struct QuadrantSquaresIterator {
    /// The column of quadrants, counted from 1.
    pub q_x: u8,
    /// The row of quadrants, counted from 1.
    pub q_y: u8,
    x: u8,
    next_x: u8,
    y: u8,
    next_y: u8,
}

impl QuadrantSquaresIterator {
    /// The quadrant lies on the board, and the next position in it or just
    /// behind its last row.
    pub closed spec fn wf(&self) -> bool {
        &&& 1 <= self.q_x <= 3
        &&& 1 <= self.q_y <= 3
        &&& 3 * (self.q_x - 1) + 1 <= self.next_x <= 3 * self.q_x
        &&& 3 * (self.q_y - 1) + 1 <= self.next_y <= 3 * self.q_y + 1
        &&& self.next_y == 3 * self.q_y + 1 ==> self.next_x == 3 * (self.q_x - 1) + 1
    }

    /// The column of quadrants, counted from 1: the field `q_x`.
    pub closed spec fn column(&self) -> int {
        self.q_x as int
    }

    /// The row of quadrants, counted from 1: the field `q_y`.
    pub closed spec fn row(&self) -> int {
        self.q_y as int
    }

    /// The number of positions handed out so far.
    pub closed spec fn position(&self) -> int {
        3 * (self.next_y - (3 * (self.q_y - 1) + 1)) + (self.next_x - (3 * (self.q_x - 1) + 1))
    }

    /// The next position of the quadrant as column and row, both counted
    /// from 1; none once all nine were handed out.
    pub fn next(&mut self) -> (item: Option<(u8, u8)>)
        requires
            old(self).wf(),
        ensures
            final(self).wf(),
            final(self).column() == old(self).column(),
            final(self).row() == old(self).row(),
            0 <= old(self).position() <= 9,
            old(self).position() < 9 ==> item == Some(
                (
                    (3 * (old(self).column() - 1) + 1 + old(self).position() % 3) as u8,
                    (3 * (old(self).row() - 1) + 1 + old(self).position() / 3) as u8,
                ),
            ) && final(self).position() == old(self).position() + 1,
            old(self).position() == 9 ==> item is None && final(self).position() == 9,
    {
        self.x = self.next_x;
        self.y = self.next_y;
        if self.next_y == self.q_y * 3 + 1 {
            return None;
        }
        if self.x < self.q_x * 3 {
            self.next_x = self.x + 1;
        } else {
            self.next_x = (self.q_x - 1) * 3 + 1;
            self.next_y = self.y + 1;
        }
        Some((self.x, self.y))
    }

    /// An iterator at the first position of the quadrant that the position
    /// in column `b_x` and row `b_y` of the board lies in.
    pub fn from_board_coordinates(b_x: u8, b_y: u8) -> (iterator: QuadrantSquaresIterator)
        requires
            1 <= b_x <= 9,
            1 <= b_y <= 9,
        ensures
            iterator.wf(),
            iterator.position() == 0,
            iterator.column() == (b_x + 2) / 3,
            iterator.row() == (b_y + 2) / 3,
    {
        let q_x = (b_x + 2) / 3;
        let q_y = (b_y + 2) / 3;
        QuadrantSquaresIterator {
            q_x,
            q_y,
            x: (q_x - 1) * 3 + 1,
            next_x: (q_x - 1) * 3 + 1,
            y: (q_y - 1) * 3 + 1,
            next_y: (q_y - 1) * 3 + 1,
        }
    }
}

/// An iterator at the first position of the quadrant in column `q_x` and
/// row `q_y` of quadrants, both counted from 1.
pub fn quadrant_squares_iterator(q_x: u8, q_y: u8) -> (iterator: QuadrantSquaresIterator)
    requires
        1 <= q_x <= 3,
        1 <= q_y <= 3,
    ensures
        iterator.wf(),
        iterator.position() == 0,
        iterator.column() == q_x,
        iterator.row() == q_y,
{
    QuadrantSquaresIterator {
        q_x,
        q_y,
        x: (q_x - 1) * 3 + 1,
        next_x: (q_x - 1) * 3 + 1,
        y: (q_y - 1) * 3 + 1,
        next_y: (q_y - 1) * 3 + 1,
    }
}

/// Stands for a walk along the indices of a row; it hands nothing out.
pub struct IndexRowIterator {}

/// The indices of the row that cell `index` lies in.
pub fn index_row_iterator(index: usize) -> (range: Range<usize>)
    requires
        index - index % 9 + 9 <= usize::MAX,
    ensures
        range.start == index - index % 9,
        range.end == index - index % 9 + 9,
{
    let start = index - index % 9;
    let end = index - index % 9 + 9;
    start..end
}

/// The indices of the column that cell `index` lies in, from the top.
pub fn index_column_iterator(index: usize) -> (result: Vec<usize>)
    ensures
        result@ == Seq::new(9, |row: int| (row * 9 + index % 9) as usize),
{
    let mut result: Vec<usize> = Vec::new();
    let mut row: usize = 0;
    while row < 9
        invariant
            row <= 9,
            result@ == Seq::new(row as nat, |row: int| (row * 9 + index % 9) as usize),
        decreases 9 - row,
    {
        result.push(row * 9 + index % 9);
        assert(result@ =~= Seq::new((row + 1) as nat, |row: int| (row * 9 + index % 9) as usize));
        row += 1;
    }
    result
}

/// The indices of the quadrant that cell `index` lies in, in reading order.
pub fn index_quadrant_iterator(index: usize) -> (result: Vec<usize>)
    requires
        index / 9 * 9 + 29 <= usize::MAX,
    ensures
        result@ == Seq::new(
            9,
            |k: int|
                ((index / 9 - (index / 9) % 3) * 9 + index % 9 - (index % 9) % 3 + (k / 3) * 9 + k
                    % 3) as usize,
        ),
{
    let mut result: Vec<usize> = Vec::new();
    let row = index / 9;
    let column = index % 9;
    let top_left = (row - row % 3) * 9 + column - column % 3;
    let mut i: usize = 0;
    while i < 3
        invariant
            i <= 3,
            row == index / 9,
            column == index % 9,
            top_left == (row - row % 3) * 9 + column - column % 3,
            top_left + 29 <= usize::MAX,
            result@ == Seq::new(
                (3 * i) as nat,
                |k: int| (top_left + (k / 3) * 9 + k % 3) as usize,
            ),
        decreases 3 - i,
    {
        let lower = top_left + i * 9;
        let mut value = lower;
        while value < lower + 3
            invariant
                lower <= value <= lower + 3,
                i < 3,
                lower == top_left + i * 9,
                top_left + 29 <= usize::MAX,
                result@ == Seq::new(
                    (3 * i + (value - lower)) as nat,
                    |k: int| (top_left + (k / 3) * 9 + k % 3) as usize,
                ),
            decreases lower + 3 - value,
        {
            result.push(value);
            assert(result@ =~= Seq::new(
                (3 * i + (value + 1 - lower)) as nat,
                |k: int| (top_left + (k / 3) * 9 + k % 3) as usize,
            ));
            value += 1;
        }
        i += 1;
    }
    assert(result@ =~= Seq::new(
        9,
        |k: int|
            ((index / 9 - (index / 9) % 3) * 9 + index % 9 - (index % 9) % 3 + (k / 3) * 9 + k % 3) as usize,
    ));
    result
}

} // verus!
