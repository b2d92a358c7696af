pub mod grid_checker;
pub mod group_checker;

pub use self::grid_checker::{AddChoiceResult, SudokuGridConflictChecker};
pub use self::group_checker::SudokuGroupConflictChecker;
