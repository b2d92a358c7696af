use vstd::prelude::*;
use crate::position::SudokuPosition;
use crate::value::SudokuValue;

verus! {

/// A value pencilled in at a position.
#[derive(Clone, Copy, Debug, PartialEq, Eq, Structural)]
pub struct SudokuChoice {
    pub position: SudokuPosition,
    pub value: SudokuValue,
}

impl SudokuChoice {
    /// The position lies in the grid and the value is a digit 1 to 9.
    pub open spec fn valid(self) -> bool {
        self.position.in_grid() && self.value.in_range()
    }

    pub fn new(position: SudokuPosition, value: SudokuValue) -> (choice: SudokuChoice)
        ensures
            choice.position == position,
            choice.value == value,
    {
        SudokuChoice { position, value }
    }
}

} // verus!
