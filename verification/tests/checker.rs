use sudoku_solving::{
    AddChoiceResult, SudokuChoice, SudokuGridConflictChecker, SudokuGroupConflictChecker,
    SudokuPosition, SudokuValue,
};

fn val(v: u8) -> SudokuValue {
    SudokuValue::new(v)
}

fn choice(row: u8, col: u8, v: u8) -> SudokuChoice {
    SudokuChoice::new(SudokuPosition::new(row, col), SudokuValue::new(v))
}

#[test]
fn new_group_checker_accepts_everything() {
    let checker = SudokuGroupConflictChecker::new();
    assert!(!checker.is_unsatisfiable());
    for digit in 1..=9u8 {
        assert!(checker.can_store_here(val(digit)));
        assert!(checker.can_restrict_here(val(digit)));
    }
}

#[test]
fn conflict_forbids_storing_the_value() {
    let mut checker = SudokuGroupConflictChecker::new();
    checker.add_conflict(val(4));
    assert!(!checker.can_store_here(val(4)));
    assert!(checker.can_store_here(val(5)));
    assert!(checker.can_restrict_here(val(4)));
    assert!(checker.can_restrict_here(val(5)));
}

#[test]
fn last_free_value_can_be_stored_but_not_restricted() {
    let mut checker = SudokuGroupConflictChecker::new();
    for digit in 1..=8u8 {
        checker.add_conflict(val(digit));
    }
    assert!(!checker.is_unsatisfiable());
    assert!(checker.can_store_here(val(9)));
    assert!(!checker.can_restrict_here(val(9)));
    assert!(!checker.can_accomodate_conflict(val(9)));
    assert!(checker.can_accomodate_conflict(val(1)));
    for digit in 1..=8u8 {
        assert!(checker.can_restrict_here(val(digit)));
        assert!(!checker.can_store_here(val(digit)));
    }
}

#[test]
fn nine_conflicts_leave_no_value() {
    let mut checker = SudokuGroupConflictChecker::new();
    for digit in 1..=9u8 {
        assert!(!checker.is_unsatisfiable());
        checker.add_conflict(val(digit));
    }
    assert!(checker.is_unsatisfiable());
    checker.remove_conflict(val(3));
    assert!(!checker.is_unsatisfiable());
    assert!(checker.can_store_here(val(3)));
}

#[test]
fn repeated_conflicts_are_counted() {
    let mut checker = SudokuGroupConflictChecker::new();
    checker.add_conflict(val(2));
    checker.add_conflict(val(2));
    for digit in (1..=9u8).filter(|d| *d != 2 && *d != 7) {
        checker.add_conflict(val(digit));
    }
    // Values 2 (twice) and all but 7 are forbidden: 7 is the last one.
    assert!(!checker.can_restrict_here(val(7)));
    checker.remove_conflict(val(2));
    assert!(!checker.can_store_here(val(2)));
    assert!(!checker.can_restrict_here(val(7)));
    checker.remove_conflict(val(2));
    assert!(checker.can_store_here(val(2)));
    assert!(checker.can_restrict_here(val(7)));
}

#[test]
fn add_then_remove_conflict_restores_the_checker() {
    let mut checker = SudokuGroupConflictChecker::new();
    checker.add_conflict(val(1));
    checker.add_conflict(val(6));
    let before: Vec<(bool, bool)> = (1..=9u8)
        .map(|d| (checker.can_store_here(val(d)), checker.can_restrict_here(val(d))))
        .collect();
    checker.add_conflict(val(8));
    checker.remove_conflict(val(8));
    let after: Vec<(bool, bool)> = (1..=9u8)
        .map(|d| (checker.can_store_here(val(d)), checker.can_restrict_here(val(d))))
        .collect();
    assert_eq!(before, after);
}

#[test]
fn cloned_checker_keeps_the_tally() {
    let mut checker = SudokuGroupConflictChecker::new();
    for digit in 2..=9u8 {
        checker.add_conflict(val(digit));
    }
    let copy = checker.clone();
    checker.remove_conflict(val(2));
    assert!(copy.can_store_here(val(1)));
    assert!(!copy.can_store_here(val(2)));
    assert!(!copy.can_restrict_here(val(1)));
    assert!(checker.can_restrict_here(val(1)));
}

#[test]
fn default_tracker_is_empty() {
    let mut tracker = SudokuGridConflictChecker::default();
    assert!(tracker.add_choice(choice(0, 0, 5)).did_add());
    assert!(!tracker.add_choice(choice(8, 0, 5)).did_add());
}

#[test]
fn did_add_tells_the_variants_apart() {
    assert!(AddChoiceResult::DidAddChoice.did_add());
    assert!(!AddChoiceResult::CouldNotAddChoice.did_add());
}

#[test]
fn empty_tracker_adds_any_choice() {
    for row in 0..9u8 {
        for col in 0..9u8 {
            let mut tracker = SudokuGridConflictChecker::new();
            assert!(tracker.add_choice(choice(row, col, 1 + (row + col) % 9)).did_add());
        }
    }
}

#[test]
fn same_value_in_the_same_row_is_rejected() {
    let mut tracker = SudokuGridConflictChecker::new();
    assert!(tracker.add_choice(choice(0, 0, 5)).did_add());
    assert!(!tracker.add_choice(choice(0, 1, 5)).did_add());
    assert!(!tracker.add_choice(choice(0, 8, 5)).did_add());
    assert!(tracker.add_choice(choice(0, 1, 6)).did_add());
}

#[test]
fn same_value_in_the_same_column_is_rejected() {
    let mut tracker = SudokuGridConflictChecker::new();
    assert!(tracker.add_choice(choice(2, 4, 7)).did_add());
    assert!(!tracker.add_choice(choice(8, 4, 7)).did_add());
    assert!(tracker.add_choice(choice(8, 4, 1)).did_add());
}

#[test]
fn same_value_in_the_same_box_is_rejected() {
    let mut tracker = SudokuGridConflictChecker::new();
    assert!(tracker.add_choice(choice(3, 3, 2)).did_add());
    assert!(!tracker.add_choice(choice(4, 4, 2)).did_add());
    assert!(!tracker.add_choice(choice(5, 5, 2)).did_add());
    // Another box, another row, another column.
    assert!(tracker.add_choice(choice(6, 6, 2)).did_add());
}

#[test]
fn rejected_choice_changes_nothing() {
    let mut tracker = SudokuGridConflictChecker::new();
    assert!(tracker.add_choice(choice(0, 0, 5)).did_add());
    assert!(!tracker.add_choice(choice(0, 1, 5)).did_add());
    // Had the rejected choice left conflicts behind, 5 would now be forbidden
    // in column 1 and in the rest of the box.
    assert!(tracker.add_choice(choice(5, 1, 5)).did_add());
}

#[test]
fn choice_that_strands_another_cell_is_rejected() {
    let mut tracker = SudokuGridConflictChecker::new();
    // Row 0 holds 1 to 7 in columns 1 to 7: cell (0, 8) may take 8 or 9.
    for col in 1..=7u8 {
        assert!(tracker.add_choice(choice(0, col, col)).did_add());
    }
    // 8 in column 8 leaves 9 for cell (0, 8).
    assert!(tracker.add_choice(choice(5, 8, 8)).did_add());
    // 9 in the box of (0, 8) would leave it nothing: rejected, though 9 is
    // free at (1, 6).
    assert!(!tracker.add_choice(choice(1, 6, 9)).did_add());
    // The same 9 at cell (0, 8) itself is its last value, and is accepted.
    assert!(tracker.add_choice(choice(0, 8, 9)).did_add());
}

#[test]
fn add_then_remove_restores_the_tracker() {
    let mut tracker = SudokuGridConflictChecker::new();
    assert!(tracker.add_choice(choice(4, 4, 3)).did_add());
    let probe = |tracker: &mut SudokuGridConflictChecker| -> Vec<bool> {
        let mut answers = Vec::new();
        for position in SudokuPosition::all() {
            if position == SudokuPosition::new(4, 4) {
                continue;
            }
            for digit in 1..=9u8 {
                let tried = SudokuChoice::new(position, val(digit));
                let added = tracker.add_choice(tried).did_add();
                if added {
                    tracker.remove_choice(tried);
                }
                answers.push(added);
            }
        }
        answers
    };
    let before = probe(&mut tracker);
    let extra = choice(4, 7, 8);
    assert!(tracker.add_choice(extra).did_add());
    tracker.remove_choice(extra);
    let after = probe(&mut tracker);
    assert_eq!(before, after);
    // With only (4, 4) = 3 committed, 3 is refused in its 20 peers and
    // nowhere else.
    assert_eq!(before.iter().filter(|added| !**added).count(), 20);
}

#[test]
fn removed_choice_frees_its_value() {
    let mut tracker = SudokuGridConflictChecker::new();
    let first = choice(0, 0, 5);
    assert!(tracker.add_choice(first).did_add());
    assert!(!tracker.add_choice(choice(0, 1, 5)).did_add());
    tracker.remove_choice(first);
    assert!(tracker.add_choice(choice(0, 1, 5)).did_add());
}

#[test]
fn placed_cells_keep_their_own_value() {
    let mut tracker = SudokuGridConflictChecker::new();
    // Fill row 0 with 1 to 9: each cell then has its own value as the only
    // one left, and every later choice must still be accepted.
    for col in 0..9u8 {
        assert!(tracker.add_choice(choice(0, col, col + 1)).did_add());
    }
    assert!(tracker.add_choice(choice(1, 0, 4)).did_add());
    assert!(!tracker.add_choice(choice(1, 1, 1)).did_add());
}
