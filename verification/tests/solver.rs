use sudoku_solving::{
    SolveError, SolverProgressStatus, SudokuChoice, SudokuGrid, SudokuPosition, SudokuSolver,
    SudokuValue,
};

fn choice(row: u8, col: u8, v: u8) -> SudokuChoice {
    SudokuChoice::new(SudokuPosition::new(row, col), SudokuValue::new(v))
}

fn digits(given: &[SudokuChoice], filled: &[SudokuChoice]) -> [[u8; 9]; 9] {
    let mut grid = [[0u8; 9]; 9];
    for placed in given.iter().chain(filled.iter()) {
        let (row, col) = placed.position.as_usize_pair();
        assert_eq!(grid[row][col], 0, "cell filled twice");
        grid[row][col] = placed.value.as_u8_value();
    }
    grid
}

fn assert_solved(grid: &[[u8; 9]; 9]) {
    for unit in 0..9 {
        let mut row = [0u8; 10];
        let mut col = [0u8; 10];
        let mut boxed = [0u8; 10];
        for k in 0..9 {
            row[grid[unit][k] as usize] += 1;
            col[grid[k][unit] as usize] += 1;
            boxed[grid[3 * (unit / 3) + k / 3][3 * (unit % 3) + k % 3] as usize] += 1;
        }
        for digit in 1..=9 {
            assert_eq!(row[digit], 1, "row {} digit {}", unit, digit);
            assert_eq!(col[digit], 1, "column {} digit {}", unit, digit);
            assert_eq!(boxed[digit], 1, "box {} digit {}", unit, digit);
        }
    }
}

fn assert_fills_open_cells_in_order(given: &[SudokuChoice], filled: &[SudokuChoice]) {
    let open: Vec<SudokuPosition> = SudokuPosition::all()
        .into_iter()
        .filter(|position| !given.iter().any(|placed| placed.position == *position))
        .collect();
    let positions: Vec<SudokuPosition> = filled.iter().map(|placed| placed.position).collect();
    assert_eq!(positions, open);
}

const FIRST_GRID: [[u8; 9]; 9] = [
    [1, 2, 3, 4, 5, 6, 7, 8, 9],
    [4, 5, 6, 7, 8, 9, 1, 2, 3],
    [7, 8, 9, 1, 2, 3, 4, 5, 6],
    [2, 1, 4, 3, 6, 5, 8, 9, 7],
    [3, 6, 5, 8, 9, 7, 2, 1, 4],
    [8, 9, 7, 2, 1, 4, 3, 6, 5],
    [5, 3, 1, 6, 4, 2, 9, 7, 8],
    [6, 4, 2, 9, 7, 8, 5, 3, 1],
    [9, 7, 8, 5, 3, 1, 6, 4, 2],
];

#[test]
fn empty_puzzle_is_solved() {
    let filled = SudokuSolver::solve(&[]).unwrap().unwrap();
    assert_eq!(filled.len(), 81);
    assert_fills_open_cells_in_order(&[], &filled);
    let grid = digits(&[], &filled);
    assert_solved(&grid);
}

#[test]
fn empty_puzzle_gives_the_first_grid_in_search_order() {
    let filled = SudokuSolver::solve(&[]).unwrap().unwrap();
    assert_eq!(digits(&[], &filled), FIRST_GRID);
}

#[test]
fn solution_placed_in_a_grid_renders_as_digits() {
    let filled = SudokuSolver::solve(&[]).unwrap().unwrap();
    let mut grid = SudokuGrid::default();
    for placed in filled {
        grid.place(placed);
    }
    let expected = "123456789\n456789123\n789123456\n214365897\n365897214\n897214365\n\
                    531642978\n642978531\n978531642\n";
    assert_eq!(grid.render(), expected);
}

#[test]
fn single_given_choice_is_kept() {
    let given = [choice(8, 8, 9)];
    let filled = SudokuSolver::solve(&given).unwrap().unwrap();
    assert_eq!(filled.len(), 80);
    assert!(filled.iter().all(|placed| placed.position != SudokuPosition::new(8, 8)));
    assert_fills_open_cells_in_order(&given, &filled);
    let grid = digits(&given, &filled);
    assert_eq!(grid[8][8], 9);
    assert_solved(&grid);
}

#[test]
fn same_value_twice_in_a_row_is_inconsistent() {
    let given = [choice(0, 0, 5), choice(0, 1, 5)];
    assert_eq!(SudokuSolver::solve(&given), Err(SolveError::InconsistentChoices));
}

#[test]
fn same_value_twice_in_a_column_is_inconsistent() {
    let given = [choice(0, 3, 2), choice(7, 3, 2)];
    assert_eq!(SudokuSolver::solve(&given), Err(SolveError::InconsistentChoices));
}

#[test]
fn same_value_twice_in_a_box_is_inconsistent() {
    let given = [choice(3, 3, 2), choice(5, 4, 2)];
    assert_eq!(SudokuSolver::solve(&given), Err(SolveError::InconsistentChoices));
}

#[test]
fn row_of_one_value_is_inconsistent() {
    let given: Vec<SudokuChoice> = (0..9u8).map(|col| choice(0, col, 4)).collect();
    assert_eq!(SudokuSolver::solve(&given), Err(SolveError::InconsistentChoices));
}

#[test]
fn given_choices_that_strand_a_cell_are_inconsistent() {
    // Row 0 holds 1 to 8 and column 8 holds 9: nothing is left for (0, 8),
    // though no two given choices clash.
    let mut given: Vec<SudokuChoice> = (0..8u8).map(|col| choice(0, col, col + 1)).collect();
    given.push(choice(4, 8, 9));
    assert_eq!(SudokuSolver::solve(&given), Err(SolveError::InconsistentChoices));
}

#[test]
fn consistent_puzzle_without_solution_gives_none() {
    // Row 0 holds 3 to 9 in columns 2 to 8. With a 1 in column 0 and a 1 in
    // column 1, both open cells of row 0 can only take 2.
    let mut given: Vec<SudokuChoice> = (2..9u8).map(|col| choice(0, col, col + 1)).collect();
    given.push(choice(3, 0, 1));
    given.push(choice(6, 1, 1));
    assert_eq!(SudokuSolver::solve(&given), Ok(None));
}

#[test]
fn solve_is_deterministic() {
    let given = [choice(0, 0, 9), choice(4, 4, 1), choice(8, 8, 5)];
    let first = SudokuSolver::solve(&given);
    let second = SudokuSolver::solve(&given);
    assert!(matches!(first, Ok(Some(_))));
    assert_eq!(first, second);
    let empty_first = SudokuSolver::solve(&[]);
    let empty_second = SudokuSolver::solve(&[]);
    assert_eq!(empty_first, empty_second);
}

#[test]
fn solution_is_the_least_one() {
    // The first row is given in falling order: the search must still fill
    // the rest with the least values that work.
    let given: Vec<SudokuChoice> = (0..9u8).map(|col| choice(0, col, 9 - col)).collect();
    let filled = SudokuSolver::solve(&given).unwrap().unwrap();
    assert_eq!(filled.len(), 72);
    let grid = digits(&given, &filled);
    assert_solved(&grid);
    assert_eq!(grid[0], [9, 8, 7, 6, 5, 4, 3, 2, 1]);
    // Row 1 begins with the least values that row 0 and the box allow.
    assert_eq!(grid[1][0], 1);
    assert_eq!(grid[1][1], 2);
    assert_eq!(grid[1][2], 3);
}

#[test]
fn full_grid_given_needs_no_choices() {
    let mut given = Vec::new();
    for row in 0..9u8 {
        for col in 0..9u8 {
            given.push(choice(row, col, FIRST_GRID[row as usize][col as usize]));
        }
    }
    assert_eq!(SudokuSolver::solve(&given), Ok(Some(Vec::new())));
}

#[test]
fn one_open_cell_is_filled() {
    let mut given = Vec::new();
    for row in 0..9u8 {
        for col in 0..9u8 {
            if (row, col) != (4, 4) {
                given.push(choice(row, col, FIRST_GRID[row as usize][col as usize]));
            }
        }
    }
    assert_eq!(SudokuSolver::solve(&given), Ok(Some(vec![choice(4, 4, 9)])));
}

#[test]
fn given_order_does_not_matter() {
    let forward = [choice(0, 0, 3), choice(1, 1, 4), choice(2, 2, 5)];
    let backward = [choice(2, 2, 5), choice(1, 1, 4), choice(0, 0, 3)];
    assert_eq!(SudokuSolver::solve(&forward), SudokuSolver::solve(&backward));
}

#[test]
fn distinct_positions_are_told_from_repeated_ones() {
    assert!(SudokuSolver::positions_are_distinct(&[]));
    assert!(SudokuSolver::positions_are_distinct(&[choice(0, 0, 1)]));
    assert!(SudokuSolver::positions_are_distinct(&[choice(0, 0, 1), choice(0, 1, 1)]));
    assert!(!SudokuSolver::positions_are_distinct(&[choice(0, 0, 1), choice(0, 0, 2)]));
    assert!(!SudokuSolver::positions_are_distinct(&[
        choice(3, 3, 1),
        choice(0, 1, 2),
        choice(3, 3, 1),
    ]));
}

#[test]
fn progress_status_tells_the_variants_apart() {
    assert!(SolverProgressStatus::SolverMadeProgress.did_make_progress());
    assert!(!SolverProgressStatus::SolverCouldNotMakeProgress.did_make_progress());
}
