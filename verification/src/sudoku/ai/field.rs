use vstd::prelude::*;
use super::super::game::Square;
use super::values::{all_digits, without};

verus! {

/// What a field is, apart from how it is stored.
pub struct FieldView {
    /// The values that are still possible for the cell, in their order.
    pub values: Seq<u8>,
    /// The cell holds a square of the puzzle.
    pub initial: bool,
    /// The cell holds a square.
    pub filled: bool,
}

/// The values that are still possible for one cell.
#[derive(Debug)]
pub struct Field {
    possible_values: Vec<u8>,
    initial: bool,
    filled: bool,
}

impl View for Field {
    type V = FieldView;

    closed spec fn view(&self) -> FieldView {
        FieldView { values: self.possible_values@, initial: self.initial, filled: self.filled }
    }
}

impl Clone for Field {
    fn clone(&self) -> (res: Self)
        ensures
            res@ == self@,
    {
        let res = Field {
            possible_values: self.possible_values.clone(),
            initial: self.initial,
            filled: self.filled,
        };
        assert(res.possible_values@ =~= self.possible_values@);
        res
    }
}

impl Field {
    /// The field of a cell that holds `square`: its value is the only one
    /// possible.
    pub fn from_square(square: &Square) -> (field: Self)
        ensures
            field@ == (FieldView { values: seq![square.value], initial: square.initial, filled: true }),
    {
        let mut field = Field { possible_values: Vec::new(), initial: square.initial, filled: true };
        field.possible_values.push(square.value);
        assert(field.possible_values@ =~= seq![square.value]);
        field
    }

    /// The field of an empty cell of which nothing is known: every digit is
    /// possible.
    pub fn new() -> (field: Self)
        ensures
            field@ == (FieldView { values: all_digits(), initial: false, filled: false }),
    {
        let mut field = Field { possible_values: Vec::new(), initial: false, filled: false };
        let mut x: u8 = 1;
        while x < 10
            invariant
                1 <= x <= 10,
                !field.initial,
                !field.filled,
                field.possible_values@ == all_digits().take(x - 1),
            decreases 10 - x,
        {
            field.possible_values.push(x);
            assert(field.possible_values@ =~= all_digits().take(x as int));
            x += 1;
        }
        assert(all_digits().take(9) =~= all_digits());
        field
    }

    /// The field of an empty cell for which the given values are possible.
    pub fn from_possible_values(values: Vec<u8>) -> (field: Self)
        ensures
            field@ == (FieldView { values: values@, initial: false, filled: false }),
    {
        Field { possible_values: values, initial: false, filled: false }
    }

    /// The values that are still possible for the cell, in their order.
    pub fn get_possible_values(&self) -> (values: &Vec<u8>)
        ensures
            values@ == self@.values,
    {
        &self.possible_values
    }

    /// Takes `value` out of the possible values and says whether it was
    /// among them.
    pub fn disallow_value(&mut self, value: u8) -> (removed: bool)
        ensures
            removed == old(self)@.values.contains(value),
            final(self)@ == (FieldView { values: without(old(self)@.values, value), ..old(self)@ }),
    {
        let mut kept: Vec<u8> = Vec::new();
        let mut removed = false;
        let mut i: usize = 0;
        while i < self.possible_values.len()
            invariant
                i <= self.possible_values@.len(),
                self.possible_values@ == old(self).possible_values@,
                self.initial == old(self).initial,
                self.filled == old(self).filled,
                kept@ == without(self.possible_values@.take(i as int), value),
                removed == self.possible_values@.take(i as int).contains(value),
            decreases self.possible_values@.len() - i,
        {
            let x = self.possible_values[i];
            proof {
                let s = self.possible_values@;
                let t = s.take(i as int + 1);
                assert(t.drop_last() =~= s.take(i as int));
                assert(t.last() == x);
                if s.take(i as int).contains(value) {
                    let m = choose|m: int| 0 <= m < i && s.take(i as int)[m] == value;
                    assert(t[m] == value);
                }
                if t.contains(value) && x != value {
                    let m = choose|m: int| 0 <= m < t.len() && t[m] == value;
                    assert(s.take(i as int)[m] == value);
                }
                if x == value {
                    assert(t[i as int] == value);
                }
            }
            if x != value {
                kept.push(x);
            } else {
                removed = true;
            }
            i += 1;
        }
        assert(self.possible_values@.take(i as int) =~= self.possible_values@);
        self.possible_values = kept;
        removed
    }

    /// The cell holds a square of the puzzle.
    pub fn is_initial(&self) -> (initial: bool)
        ensures
            initial == self@.initial,
    {
        self.initial
    }

    /// The cell holds a square.
    pub fn is_filled(&self) -> (filled: bool)
        ensures
            filled == self@.filled,
    {
        self.filled
    }

    /// `value` is still possible for the cell.
    pub fn has_possible_value(&self, value: &u8) -> (found: bool)
        ensures
            found == self@.values.contains(*value),
    {
        let mut i: usize = 0;
        while i < self.possible_values.len()
            invariant
                i <= self.possible_values@.len(),
                forall|j: int| 0 <= j < i ==> self.possible_values@[j] != *value,
            decreases self.possible_values@.len() - i,
        {
            if self.possible_values[i] == *value {
                return true;
            }
            i += 1;
        }
        false
    }
}

} // verus!
