use sudoku_solving::{
    SudokuBox, SudokuCell, SudokuChoice, SudokuGrid, SudokuPosition, SudokuValue,
};

fn pos(row: u8, col: u8) -> SudokuPosition {
    SudokuPosition::new(row, col)
}

fn val(v: u8) -> SudokuValue {
    SudokuValue::new(v)
}

#[test]
fn position_keeps_its_coordinates() {
    assert_eq!(pos(0, 0).as_usize_pair(), (0, 0));
    assert_eq!(pos(8, 8).as_usize_pair(), (8, 8));
    assert_eq!(pos(3, 7).as_usize_pair(), (3, 7));
}

#[test]
fn positions_compare_by_coordinates() {
    assert_eq!(pos(4, 5), pos(4, 5));
    assert_ne!(pos(4, 5), pos(5, 4));
}

#[test]
fn all_positions_come_in_scan_order() {
    let all = SudokuPosition::all();
    assert_eq!(all.len(), 81);
    assert_eq!(all[0], pos(0, 0));
    assert_eq!(all[1], pos(0, 1));
    assert_eq!(all[8], pos(0, 8));
    assert_eq!(all[9], pos(1, 0));
    assert_eq!(all[80], pos(8, 8));
    for (index, position) in all.iter().enumerate() {
        assert_eq!(position.as_usize_pair(), (index / 9, index % 9));
    }
}

#[test]
fn position_add_moves_down_and_right() {
    assert_eq!(pos(3, 6).add(2, 1), pos(5, 7));
    assert_eq!(pos(0, 0).add(0, 0), pos(0, 0));
    assert_eq!(pos(6, 6).add(2, 2), pos(8, 8));
}

#[test]
fn value_first_is_one() {
    assert_eq!(SudokuValue::first().as_u8_value(), 1);
    assert_eq!(SudokuValue::first(), val(1));
}

#[test]
fn value_digit_and_index() {
    for digit in 1..=9u8 {
        assert_eq!(val(digit).as_u8_value(), digit);
        assert_eq!(val(digit).as_usize_idx(), (digit - 1) as usize);
        assert_eq!(val(digit).as_u8_val(), digit);
        assert_eq!(val(digit).as_idx(), (digit - 1) as usize);
    }
}

#[test]
fn value_next_counts_up_and_stops_at_nine() {
    assert_eq!(val(1).next(), Some(val(2)));
    assert_eq!(val(8).next(), Some(val(9)));
    assert_eq!(val(9).next(), None);
    let mut value = SudokuValue::first();
    let mut seen = vec![value.as_u8_value()];
    while let Some(next) = value.next() {
        seen.push(next.as_u8_value());
        value = next;
    }
    assert_eq!(seen, vec![1, 2, 3, 4, 5, 6, 7, 8, 9]);
}

#[test]
fn choice_holds_position_and_value() {
    let choice = SudokuChoice::new(pos(8, 8), val(9));
    assert_eq!(choice.position, pos(8, 8));
    assert_eq!(choice.value, val(9));
}

#[test]
fn box_for_position_divides_by_three() {
    assert_eq!(SudokuBox::for_position(pos(0, 0)).to_usize_idx(), 0);
    assert_eq!(SudokuBox::for_position(pos(2, 2)).to_usize_idx(), 0);
    assert_eq!(SudokuBox::for_position(pos(0, 3)).to_usize_idx(), 1);
    assert_eq!(SudokuBox::for_position(pos(1, 8)).to_usize_idx(), 2);
    assert_eq!(SudokuBox::for_position(pos(3, 0)).to_usize_idx(), 3);
    assert_eq!(SudokuBox::for_position(pos(4, 4)).to_usize_idx(), 4);
    assert_eq!(SudokuBox::for_position(pos(5, 6)).to_usize_idx(), 5);
    assert_eq!(SudokuBox::for_position(pos(6, 2)).to_usize_idx(), 6);
    assert_eq!(SudokuBox::for_position(pos(8, 5)).to_usize_idx(), 7);
    assert_eq!(SudokuBox::for_position(pos(8, 8)).to_usize_idx(), 8);
    for position in SudokuPosition::all() {
        let (row, col) = position.as_usize_pair();
        assert_eq!(SudokuBox::for_position(position).to_usize_idx(), 3 * (row / 3) + col / 3);
    }
}

#[test]
fn box_top_left_positions() {
    assert_eq!(SudokuBox::TopLeft.top_left_position(), pos(0, 0));
    assert_eq!(SudokuBox::TopCenter.top_left_position(), pos(0, 3));
    assert_eq!(SudokuBox::TopRight.top_left_position(), pos(0, 6));
    assert_eq!(SudokuBox::CenterLeft.top_left_position(), pos(3, 0));
    assert_eq!(SudokuBox::CenterCenter.top_left_position(), pos(3, 3));
    assert_eq!(SudokuBox::CenterRight.top_left_position(), pos(3, 6));
    assert_eq!(SudokuBox::BottomLeft.top_left_position(), pos(6, 0));
    assert_eq!(SudokuBox::BottomCenter.top_left_position(), pos(6, 3));
    assert_eq!(SudokuBox::BottomRight.top_left_position(), pos(6, 6));
}

#[test]
fn box_positions_lists_nine_cells_in_order() {
    let cells = SudokuBox::CenterRight.positions();
    assert_eq!(
        cells,
        vec![
            pos(3, 6),
            pos(3, 7),
            pos(3, 8),
            pos(4, 6),
            pos(4, 7),
            pos(4, 8),
            pos(5, 6),
            pos(5, 7),
            pos(5, 8),
        ]
    );
}

#[test]
fn boxes_part_the_grid() {
    let boxes = [
        SudokuBox::TopLeft,
        SudokuBox::TopCenter,
        SudokuBox::TopRight,
        SudokuBox::CenterLeft,
        SudokuBox::CenterCenter,
        SudokuBox::CenterRight,
        SudokuBox::BottomLeft,
        SudokuBox::BottomCenter,
        SudokuBox::BottomRight,
    ];
    let mut seen = [[0u8; 9]; 9];
    for (number, sudoku_box) in boxes.iter().enumerate() {
        assert_eq!(sudoku_box.to_usize_idx(), number);
        let cells = sudoku_box.positions();
        assert_eq!(cells.len(), 9);
        for cell in cells {
            let (row, col) = cell.as_usize_pair();
            seen[row][col] += 1;
            assert_eq!(SudokuBox::for_position(cell).to_usize_idx(), number);
        }
    }
    assert_eq!(seen, [[1u8; 9]; 9]);
}

#[test]
fn empty_grid_renders_dots() {
    let grid = SudokuGrid::default();
    let expected = ".........\n".repeat(9);
    assert_eq!(grid.render(), expected);
}

#[test]
fn grid_place_writes_one_cell() {
    let mut grid = SudokuGrid::default();
    grid.place(SudokuChoice::new(pos(8, 8), val(9)));
    grid.place(SudokuChoice::new(pos(0, 1), val(1)));
    let mut expected = String::new();
    expected.push_str(".1.......\n");
    for _ in 0..7 {
        expected.push_str(".........\n");
    }
    expected.push_str("........9\n");
    assert_eq!(grid.render(), expected);
}

#[test]
fn grid_place_overwrites_and_does_not_validate() {
    let mut grid = SudokuGrid::default();
    grid.place(SudokuChoice::new(pos(0, 0), val(5)));
    grid.place(SudokuChoice::new(pos(0, 1), val(5)));
    grid.place(SudokuChoice::new(pos(0, 0), val(7)));
    let text = grid.render();
    assert_eq!(text.lines().next(), Some("75......."));
    assert_eq!(text.len(), 90);
}

#[test]
fn grid_renders_every_digit() {
    let mut grid = SudokuGrid::default();
    for digit in 1..=9u8 {
        grid.place(SudokuChoice::new(pos(4, digit - 1), val(digit)));
    }
    let text = grid.render();
    let lines: Vec<&str> = text.lines().collect();
    assert_eq!(lines.len(), 9);
    assert_eq!(lines[4], "123456789");
    assert_eq!(lines[3], ".........");
}

#[test]
fn cell_is_empty_or_filled() {
    let empty = SudokuCell::Empty;
    let filled = SudokuCell::Filled(val(3));
    assert!(matches!(empty, SudokuCell::Empty));
    assert!(matches!(filled, SudokuCell::Filled(value) if value.as_u8_value() == 3));
}
