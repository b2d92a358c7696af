use vstd::prelude::*;
use crate::value::SudokuValue;

verus! {

/// What a cell of the grid holds: nothing yet, or a value.
#[derive(Clone, Copy, Debug)]
pub enum SudokuCell {
    Empty,
    Filled(SudokuValue),
}

} // verus!
