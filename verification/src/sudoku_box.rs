use vstd::prelude::*;
use crate::position::SudokuPosition;

verus! {

/// One of the nine 3x3 regions of the grid.
#[derive(Clone, Copy)]
pub enum SudokuBox {
    TopLeft,
    TopCenter,
    TopRight,
    CenterLeft,
    CenterCenter,
    CenterRight,
    BottomLeft,
    BottomCenter,
    BottomRight,
}

impl SudokuBox {
    /// The number of the box, 0 to 8, counting left to right, top to bottom.
    pub open spec fn number(self) -> int {
        match self {
            SudokuBox::TopLeft => 0,
            SudokuBox::TopCenter => 1,
            SudokuBox::TopRight => 2,
            SudokuBox::CenterLeft => 3,
            SudokuBox::CenterCenter => 4,
            SudokuBox::CenterRight => 5,
            SudokuBox::BottomLeft => 6,
            SudokuBox::BottomCenter => 7,
            SudokuBox::BottomRight => 8,
        }
    }

    /// The row of the box's top left cell.
    pub open spec fn top_row(self) -> int {
        3 * (self.number() / 3)
    }

    /// The column of the box's top left cell.
    pub open spec fn left_col(self) -> int {
        3 * (self.number() % 3)
    }

    /// The cell lies in this box.
    pub open spec fn contains(self, position: SudokuPosition) -> bool {
        &&& self.top_row() <= position.row() < self.top_row() + 3
        &&& self.left_col() <= position.col() < self.left_col() + 3
    }

    /// The nine cells of the box, left to right, top to bottom.
    pub open spec fn spec_positions(self) -> Seq<SudokuPosition> {
        Seq::new(
            9,
            |k: int|
                SudokuPosition::at_coordinates(self.top_row() + k / 3, self.left_col() + k % 3),
        )
    }

    /// The top left cell of a box lies in row 0, 3 or 6 and in column 0, 3
    /// or 6.
    pub proof fn lemma_corner(self)
        ensures
            self.top_row() == 0 || self.top_row() == 3 || self.top_row() == 6,
            self.left_col() == 0 || self.left_col() == 3 || self.left_col() == 6,
            self.number() == self.top_row() + self.left_col() / 3,
    {
    }

    /// Each cell of the grid lies in exactly one box: the one whose number
    /// comes from dividing row and column by 3.
    pub proof fn lemma_one_box(self, position: SudokuPosition)
        requires
            position.in_grid(),
        ensures
            self.contains(position) <==> self.number() == 3 * (position.row() / 3) + position.col()
                / 3,
            self.contains(position) <==> self.top_row() == 3 * (position.row() / 3)
                && self.left_col() == 3 * (position.col() / 3),
    {
        self.lemma_corner();
    }

    /// The cell at place `offset` of the box lies in the grid and in the
    /// box, `offset / 3` rows below and `offset % 3` columns right of its top
    /// left cell.
    pub proof fn lemma_cell(self, inside: SudokuPosition, offset: int)
        requires
            0 <= offset < 9,
            inside.in_grid(),
            self.contains(inside),
        ensures
            self.spec_positions()[offset].in_grid(),
            self.contains(self.spec_positions()[offset]),
            self.spec_positions()[offset].row() == self.top_row() + offset / 3,
            self.spec_positions()[offset].col() == self.left_col() + offset % 3,
            3 * (self.spec_positions()[offset].row() % 3) + self.spec_positions()[offset].col() % 3
                == offset,
            self.spec_positions()[offset].row() / 3 == inside.row() / 3,
            self.spec_positions()[offset].col() / 3 == inside.col() / 3,
    {
        self.lemma_corner();
        self.lemma_one_box(inside);
        let down = offset / 3;
        let right = offset % 3;
        assert(0 <= down < 3 && 0 <= right < 3 && offset == 3 * down + right);
        let row = self.top_row() + down;
        let col = self.left_col() + right;
        let cell = self.spec_positions()[offset];
        assert(cell == SudokuPosition::at_coordinates(row, col));
        assert(cell.row() == row && cell.col() == col);
        assert(row / 3 == self.top_row() / 3 && row % 3 == down);
        assert(col / 3 == self.left_col() / 3 && col % 3 == right);
    }

    /// A cell in the box of `inside` is listed by the box at the place that
    /// its row and column within the box give.
    pub proof fn lemma_cell_at_offset(self, inside: SudokuPosition, position: SudokuPosition)
        requires
            inside.in_grid(),
            position.in_grid(),
            self.contains(inside),
            position.row() / 3 == inside.row() / 3,
            position.col() / 3 == inside.col() / 3,
        ensures
            self.contains(position),
            self.spec_positions()[3 * (position.row() % 3) + position.col() % 3] == position,
    {
        self.lemma_corner();
        self.lemma_one_box(inside);
        self.lemma_one_box(position);
        let down = position.row() % 3;
        let right = position.col() % 3;
        let offset = 3 * down + right;
        assert(offset / 3 == down && offset % 3 == right);
        assert(position.row() == self.top_row() + down);
        assert(position.col() == self.left_col() + right);
        assert(self.spec_positions()[offset] == SudokuPosition::at_coordinates(
            self.top_row() + down,
            self.left_col() + right,
        ));
    }

    /// The cells that `positions` lists are the cells of the box.
    pub proof fn lemma_positions(self, position: SudokuPosition)
        requires
            position.in_grid(),
        ensures
            self.contains(position) <==> self.spec_positions().contains(position),
    {
        let cells = self.spec_positions();
        if self.contains(position) {
            self.lemma_cell_at_offset(position, position);
            assert(cells[3 * (position.row() % 3) + position.col() % 3] == position);
        }
        if cells.contains(position) {
            let k = choose|k: int| 0 <= k < cells.len() && cells[k] == position;
            self.lemma_corner();
            let down = k / 3;
            let right = k % 3;
            assert(0 <= down < 3 && 0 <= right < 3);
            assert(cells[k] == SudokuPosition::at_coordinates(
                self.top_row() + down,
                self.left_col() + right,
            ));
        }
    }

    /// The box in which the given cell lies.
    pub fn for_position(position: SudokuPosition) -> (sudoku_box: SudokuBox)
        ensures
            sudoku_box.contains(position),
            sudoku_box.number() == 3 * (position.row() / 3) + position.col() / 3,
    {
        let (row_idx, col_idx) = position.as_usize_pair();
        let band = row_idx / 3;
        let stack = col_idx / 3;
        if band == 0 {
            if stack == 0 {
                SudokuBox::TopLeft
            } else if stack == 1 {
                SudokuBox::TopCenter
            } else {
                SudokuBox::TopRight
            }
        } else if band == 1 {
            if stack == 0 {
                SudokuBox::CenterLeft
            } else if stack == 1 {
                SudokuBox::CenterCenter
            } else {
                SudokuBox::CenterRight
            }
        } else {
            if stack == 0 {
                SudokuBox::BottomLeft
            } else if stack == 1 {
                SudokuBox::BottomCenter
            } else {
                SudokuBox::BottomRight
            }
        }
    }

    /// The top left cell of the box.
    pub fn top_left_position(self) -> (position: SudokuPosition)
        ensures
            position.row() == self.top_row(),
            position.col() == self.left_col(),
    {
        let (row_idx, col_idx): (u8, u8) = match self {
            SudokuBox::TopLeft => (0, 0),
            SudokuBox::TopCenter => (0, 3),
            SudokuBox::TopRight => (0, 6),
            SudokuBox::CenterLeft => (3, 0),
            SudokuBox::CenterCenter => (3, 3),
            SudokuBox::CenterRight => (3, 6),
            SudokuBox::BottomLeft => (6, 0),
            SudokuBox::BottomCenter => (6, 3),
            SudokuBox::BottomRight => (6, 6),
        };
        SudokuPosition::new(row_idx, col_idx)
    }

    /// The number of the box, 0 to 8, counting left to right, top to bottom.
    pub fn to_usize_idx(self) -> (idx: usize)
        ensures
            idx == self.number(),
    {
        match self {
            SudokuBox::TopLeft => 0,
            SudokuBox::TopCenter => 1,
            SudokuBox::TopRight => 2,
            SudokuBox::CenterLeft => 3,
            SudokuBox::CenterCenter => 4,
            SudokuBox::CenterRight => 5,
            SudokuBox::BottomLeft => 6,
            SudokuBox::BottomCenter => 7,
            SudokuBox::BottomRight => 8,
        }
    }

    /// The nine cells of the box, left to right, top to bottom.
    pub fn positions(self) -> (positions: Vec<SudokuPosition>)
        ensures
            positions@ == self.spec_positions(),
    {
        let top_left = self.top_left_position();
        let mut positions: Vec<SudokuPosition> = Vec::new();
        let mut rel_row_idx: u8 = 0;
        while rel_row_idx < 3
            invariant
                rel_row_idx <= 3,
                top_left.row() == self.top_row(),
                top_left.col() == self.left_col(),
                positions@.len() == 3 * rel_row_idx,
                forall|k: int|
                    0 <= k < positions@.len() ==> positions@[k] == self.spec_positions()[k],
            decreases 3 - rel_row_idx,
        {
            let mut rel_col_idx: u8 = 0;
            while rel_col_idx < 3
                invariant
                    rel_row_idx < 3,
                    rel_col_idx <= 3,
                    top_left.row() == self.top_row(),
                    top_left.col() == self.left_col(),
                    positions@.len() == 3 * rel_row_idx + rel_col_idx,
                    forall|k: int|
                        0 <= k < positions@.len() ==> positions@[k] == self.spec_positions()[k],
                decreases 3 - rel_col_idx,
            {
                positions.push(top_left.add(rel_row_idx, rel_col_idx));
                rel_col_idx += 1;
            }
            rel_row_idx += 1;
        }
        assert(positions@ =~= self.spec_positions());
        positions
    }
}

} // verus!
