use vstd::prelude::*;

verus! {

/// A position on the board: column `x` and row `y`, both counted from 1.
#[derive(Clone, Copy, Debug, PartialEq, Eq, Hash, Structural)]
pub struct Coordinate {
    pub x: u8,
    pub y: u8,
}

impl Coordinate {
    /// Both components lie in `1..=9`.
    pub open spec fn valid(self) -> bool {
        1 <= self.x <= 9 && 1 <= self.y <= 9
    }

    /// The flat, row-major index of this position.
    pub open spec fn spec_index(self) -> int {
        9 * (self.y - 1) + (self.x - 1)
    }

    /// The position that a flat index stands for. Only the low eight bits of
    /// the index count.
    pub open spec fn spec_from_index(index: int) -> Coordinate {
        Coordinate { x: ((index % 256) % 9 + 1) as u8, y: ((index % 256) / 9 + 1) as u8 }
    }

    /// The position in column `x` and row `y`.
    pub fn new(x: u8, y: u8) -> (c: Self)
        ensures
            c.x == x,
            c.y == y,
    {
        Coordinate { x: x, y: y }
    }

    /// Both components lie in `1..=9`.
    pub fn is_valid(&self) -> (valid: bool)
        ensures
            valid == self.valid(),
    {
        1 <= self.x && self.x <= 9 && 1 <= self.y && self.y <= 9
    }

    /// The flat, row-major index of a position of the board.
    pub fn get_index(&self) -> (index: usize)
        requires
            self.valid(),
        ensures
            index == self.spec_index(),
            index < 81,
    {
        (9 * (self.y - 1) + self.x - 1) as usize
    }

    /// The position that a flat index stands for: see `spec_from_index`.
    pub fn from_index(index: usize) -> (c: Self)
        ensures
            c == Self::spec_from_index(index as int),
            index < 81 ==> c.valid() && c.spec_index() == index,
    {
        let low: u8 = (index % 256) as u8;
        let x: u8 = low % 9 + 1;
        let y: u8 = low / 9 + 1;
        Coordinate { x, y }
    }

    /// Every flat index of the board names a valid position, and that
    /// position has the same index again.
    pub proof fn lemma_index_roundtrip(index: int)
        requires
            0 <= index <= 80,
        ensures
            Self::spec_from_index(index).valid(),
            Self::spec_from_index(index).spec_index() == index,
    {
    }

    /// Every valid position has an index on the board, and that index names
    /// the same position again.
    pub proof fn lemma_coordinate_roundtrip(c: Coordinate)
        requires
            c.valid(),
        ensures
            0 <= c.spec_index() <= 80,
            Self::spec_from_index(c.spec_index()) == c,
    {
    }
}

} // verus!
