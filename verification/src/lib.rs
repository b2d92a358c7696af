pub mod checker;
pub mod choice;
pub mod grid;
pub mod position;
pub mod rules;
pub mod search;
pub mod solver;
pub mod sudoku_box;
pub mod sudoku_cell;
pub mod units;
pub mod value;

pub use self::checker::grid_checker::{AddChoiceResult, SudokuGridConflictChecker};
pub use self::checker::group_checker::SudokuGroupConflictChecker;
pub use self::choice::SudokuChoice;
pub use self::grid::SudokuGrid;
pub use self::position::SudokuPosition;
pub use self::solver::{SolveError, SolverProgressStatus, SudokuSolver};
pub use self::sudoku_box::SudokuBox;
pub use self::sudoku_cell::SudokuCell;
pub use self::value::SudokuValue;
