use vstd::prelude::*;

verus! {

/// A cell of the 9x9 grid, named by its row and its column.
///
/// Every value of this type lies inside the grid: the constructor takes
/// nothing else, and the fields cannot be set from outside the crate.
#[derive(Clone, Copy, Debug, PartialEq, Eq, Structural)]
pub struct SudokuPosition {
    pub(crate) row_idx: u8,
    pub(crate) col_idx: u8,
}

impl SudokuPosition {
    /// The row, counted from the top, starting at 0.
    pub open(crate) spec fn row(self) -> int {
        self.row_idx as int
    }

    /// The column, counted from the left, starting at 0.
    pub open(crate) spec fn col(self) -> int {
        self.col_idx as int
    }

    /// Both coordinates are below 9.
    #[verifier::type_invariant]
    pub open spec fn in_grid(self) -> bool {
        0 <= self.row() < 9 && 0 <= self.col() < 9
    }

    /// Where the cell comes in the scan that goes left to right, top to
    /// bottom. The order of these numbers is the order of the cells.
    pub open spec fn scan_index(self) -> int {
        9 * self.row() + self.col()
    }

    /// The cell in row `row` and column `col`.
    pub open(crate) spec fn at_coordinates(row: int, col: int) -> SudokuPosition {
        SudokuPosition { row_idx: row as u8, col_idx: col as u8 }
    }

    /// The cell that the scan reaches at step `index`.
    pub open(crate) spec fn at(index: int) -> SudokuPosition {
        SudokuPosition { row_idx: (index / 9) as u8, col_idx: (index % 9) as u8 }
    }

    /// All 81 cells in scan order.
    pub open spec fn spec_all() -> Seq<SudokuPosition> {
        Seq::new(81, |index: int| Self::at(index))
    }

    /// `at` and `scan_index` undo each other on the grid.
    pub proof fn lemma_scan_index(index: int)
        requires
            0 <= index < 81,
        ensures
            Self::at(index).in_grid(),
            Self::at(index).scan_index() == index,
    {
    }

    /// The scan meets the cell in row `row` and column `col` at step
    /// `9 * row + col`.
    pub proof fn lemma_at_coordinates(row: int, col: int)
        requires
            0 <= row < 9,
            0 <= col < 9,
        ensures
            Self::at(9 * row + col).row() == row,
            Self::at(9 * row + col).col() == col,
    {
        let index = 9 * row + col;
        assert(index / 9 == row && index % 9 == col);
    }

    /// Every cell of the grid is met by the scan, at its own index.
    pub proof fn lemma_at_scan_index(self)
        requires
            self.in_grid(),
        ensures
            0 <= self.scan_index() < 81,
            Self::at(self.scan_index()) == self,
            Self::spec_all()[self.scan_index()] == self,
    {
    }

    pub fn new(row_idx: u8, col_idx: u8) -> (position: SudokuPosition)
        requires
            row_idx < 9,
            col_idx < 9,
        ensures
            position.row() == row_idx,
            position.col() == col_idx,
    {
        SudokuPosition { row_idx, col_idx }
    }

    /// All cells of the grid, left to right, top to bottom.
    pub fn all() -> (all: Vec<SudokuPosition>)
        ensures
            all@ == Self::spec_all(),
    {
        let mut all: Vec<SudokuPosition> = Vec::new();
        let mut row_idx: u8 = 0;
        while row_idx < 9
            invariant
                row_idx <= 9,
                all@.len() == 9 * row_idx,
                forall|index: int| 0 <= index < all@.len() ==> all@[index] == Self::at(index),
            decreases 9 - row_idx,
        {
            let mut col_idx: u8 = 0;
            while col_idx < 9
                invariant
                    row_idx < 9,
                    col_idx <= 9,
                    all@.len() == 9 * row_idx + col_idx,
                    forall|index: int| 0 <= index < all@.len() ==> all@[index] == Self::at(index),
                decreases 9 - col_idx,
            {
                all.push(SudokuPosition { row_idx, col_idx });
                col_idx += 1;
            }
            row_idx += 1;
        }
        assert(all@ =~= Self::spec_all());
        all
    }

    /// The cell `row_offset` rows below and `col_offset` columns to the
    /// right of this one, which must still lie in the grid.
    pub fn add(self, row_offset: u8, col_offset: u8) -> (position: SudokuPosition)
        requires
            self.row() + row_offset < 9,
            self.col() + col_offset < 9,
        ensures
            position.row() == self.row() + row_offset,
            position.col() == self.col() + col_offset,
    {
        SudokuPosition::new(self.row_idx + row_offset, self.col_idx + col_offset)
    }

    /// Row and column as indices into a two-dimensional array.
    pub fn as_usize_pair(self) -> (pair: (usize, usize))
        ensures
            pair.0 == self.row(),
            pair.1 == self.col(),
            pair.0 < 9,
            pair.1 < 9,
    {
        proof {
            use_type_invariant(&self);
        }
        (self.row_idx as usize, self.col_idx as usize)
    }
}

} // verus!
