use vstd::prelude::*;
use crate::choice::SudokuChoice;
use crate::position::SudokuPosition;
use crate::sudoku_cell::SudokuCell;

verus! {

/// `String::push` of the standard library appends one character to the
/// end of the string and changes nothing else of it.
pub assume_specification[ String::push ](text: &mut String, ch: char)
    ensures
        final(text)@ == old(text)@.push(ch),
;

/// The character that stands for a cell in the text of a grid: a dot for an
/// empty cell, and its digit for a filled one.
pub open spec fn glyph(cell: SudokuCell) -> char {
    match cell {
        SudokuCell::Empty => '.',
        SudokuCell::Filled(value) => ((48 + value.number()) as u8) as char,
    }
}

/// The 9x9 grid of cells. It holds what is written into it and judges
/// nothing: whether the values may stand together is not its business.
pub struct SudokuGrid {
    pub(crate) cells: [[SudokuCell; 9]; 9],
}

impl SudokuGrid {
    /// What the cell at `position` holds.
    pub open(crate) spec fn cell(&self, position: SudokuPosition) -> SudokuCell {
        self.cells[position.row()][position.col()]
    }

    /// The grid as text: nine lines of nine characters, each line ended by
    /// a line feed.
    pub open spec fn text(&self) -> Seq<char> {
        Seq::new(
            90,
            |k: int|
                if k % 10 == 9 {
                    '\n'
                } else {
                    glyph(self.cell(SudokuPosition::at(9 * (k / 10) + k % 10)))
                },
        )
    }

    /// The empty grid.
    pub fn default() -> (grid: SudokuGrid)
        ensures
            forall|position: SudokuPosition|
                position.in_grid() ==> #[trigger] grid.cell(position) == SudokuCell::Empty,
    {
        SudokuGrid { cells: [[SudokuCell::Empty; 9]; 9] }
    }

    /// Writes the value of `choice` into its cell, over whatever the cell
    /// held, and leaves the other cells as they were.
    pub fn place(&mut self, choice: SudokuChoice)
        ensures
            final(self).cell(choice.position) == SudokuCell::Filled(choice.value),
            forall|position: SudokuPosition|
                position.in_grid() && position != choice.position ==> #[trigger] final(self).cell(
                    position,
                ) == old(self).cell(position),
    {
        let (row_idx, col_idx) = choice.position.as_usize_pair();
        self.cells[row_idx][col_idx] = SudokuCell::Filled(choice.value);
    }

    /// The grid as text, row by row: a dot for an empty cell, the digit for
    /// a filled one, and a line feed after each row.
    pub fn render(&self) -> (text: String)
        ensures
            text@ == self.text(),
    {
        let mut text = String::new();
        for row_idx in 0..9usize
            invariant
                text@.len() == 10 * row_idx,
                forall|k: int| 0 <= k < text@.len() ==> text@[k] == self.text()[k],
        {
            for col_idx in 0..9usize
                invariant
                    row_idx < 9,
                    text@.len() == 10 * row_idx + col_idx,
                    forall|k: int| 0 <= k < text@.len() ==> text@[k] == self.text()[k],
            {
                proof {
                    let k = 10 * row_idx + col_idx;
                    assert(k / 10 == row_idx && k % 10 == col_idx);
                    SudokuPosition::lemma_at_coordinates(row_idx as int, col_idx as int);
                }
                match self.cells[row_idx][col_idx] {
                    SudokuCell::Empty => text.push('.'),
                    SudokuCell::Filled(value) => text.push((48u8 + value.as_u8_value()) as char),
                }
            }
            proof {
                let k = 10 * row_idx + 9;
                assert(k % 10 == 9);
            }
            text.push('\n');
        }
        assert(text@ =~= self.text());
        text
    }
}

} // verus!
