use vstd::prelude::*;
use vstd::set_lib::{lemma_int_range, lemma_len_subset, lemma_subset_equality, set_int_range};
use crate::choice::SudokuChoice;
use crate::position::SudokuPosition;
use crate::rules::{all_valid, clash, peers};
use crate::search::{
    distinct_positions, fill_order, is_completion, lemma_covered, lemma_fill_order,
    lemma_fill_order_rising, occupies,
};
use crate::sudoku_box::SudokuBox;
use crate::value::SudokuValue;

verus! {

/// Nine cells of the grid of which any two share a row, a column or a box.
/// The rows, the columns and the boxes are such.
pub open spec fn is_unit(cells: Seq<SudokuPosition>) -> bool {
    &&& cells.len() == 9
    &&& forall|k: int| 0 <= k < 9 ==> (#[trigger] cells[k]).in_grid()
    &&& forall|j: int, k: int| 0 <= j < k < 9 ==> peers(#[trigger] cells[j], #[trigger] cells[k])
}

/// The cells of row `row`, left to right.
pub open spec fn row_cells(row: int) -> Seq<SudokuPosition> {
    Seq::new(9, |col: int| SudokuPosition::at_coordinates(row, col))
}

/// The cells of column `col`, top to bottom.
pub open spec fn column_cells(col: int) -> Seq<SudokuPosition> {
    Seq::new(9, |row: int| SudokuPosition::at_coordinates(row, col))
}

/// Some choice puts `value` into the cell at `position`.
pub open spec fn holds(
    placed: Seq<SudokuChoice>,
    position: SudokuPosition,
    value: SudokuValue,
) -> bool {
    exists|i: int|
        0 <= i < placed.len() && (#[trigger] placed[i]).position == position && placed[i].value
            == value
}

/// A row is a unit.
pub proof fn lemma_row_is_unit(row: int)
    requires
        0 <= row < 9,
    ensures
        is_unit(row_cells(row)),
{
}

/// A column is a unit.
pub proof fn lemma_column_is_unit(col: int)
    requires
        0 <= col < 9,
    ensures
        is_unit(column_cells(col)),
{
}

/// A box is a unit.
pub proof fn lemma_box_is_unit(sudoku_box: SudokuBox)
    ensures
        is_unit(sudoku_box.spec_positions()),
{
    let cells = sudoku_box.spec_positions();
    sudoku_box.lemma_corner();
    let inside = cells[0];
    assert(inside.in_grid() && sudoku_box.contains(inside));
    assert forall|k: int| 0 <= k < 9 implies (#[trigger] cells[k]).in_grid() by {
        sudoku_box.lemma_cell(inside, k);
    }
    assert forall|j: int, k: int| 0 <= j < k < 9 implies peers(
        #[trigger] cells[j],
        #[trigger] cells[k],
    ) by {
        sudoku_box.lemma_cell(inside, j);
        sudoku_box.lemma_cell(inside, k);
    }
}

/// Nine different digits are all the digits.
pub proof fn lemma_nine_digits(digits: Seq<int>, digit: int)
    requires
        digits.len() == 9,
        forall|k: int| 0 <= k < 9 ==> 1 <= #[trigger] digits[k] <= 9,
        forall|j: int, k: int| 0 <= j < k < 9 ==> digits[j] != digits[k],
        1 <= digit <= 9,
    ensures
        exists|k: int| 0 <= k < 9 && digits[k] == digit,
{
    assert forall|j: int, k: int|
        0 <= j < digits.len() && 0 <= k < digits.len() && j != k implies digits[j]
        != digits[k] by {
        if j < k {
            assert(digits[j] != digits[k]);
        } else {
            assert(digits[k] != digits[j]);
        }
    }
    digits.unique_seq_to_set();
    lemma_int_range(1, 10);
    assert forall|d: int| digits.to_set().contains(d) implies set_int_range(1, 10).contains(d) by {
        let k = choose|k: int| 0 <= k < digits.len() && digits[k] == d;
        assert(1 <= digits[k] <= 9);
    }
    lemma_len_subset(digits.to_set(), set_int_range(1, 10));
    lemma_subset_equality(digits.to_set(), set_int_range(1, 10));
    assert(set_int_range(1, 10).contains(digit));
    assert(digits.to_set().contains(digit));
    let k = choose|k: int| 0 <= k < digits.len() && digits[k] == digit;
    assert(0 <= k < 9 && digits[k] == digit);
}

/// In a solved grid every unit holds every digit, and in one cell only:
/// each row, each column and each box contains each of 1 to 9 exactly once.
pub proof fn lemma_solved_unit(
    given: Seq<SudokuChoice>,
    filled: Seq<SudokuChoice>,
    cells: Seq<SudokuPosition>,
    value: SudokuValue,
) -> (k: int)
    requires
        all_valid(given),
        is_completion(given, filled),
        is_unit(cells),
        value.in_range(),
    ensures
        0 <= k < 9,
        holds(given + filled, cells[k], value),
        forall|j: int| 0 <= j < 9 && holds(given + filled, #[trigger] cells[j], value) ==> j == k,
{
    let full = given + filled;
    let at = |k: int|
        choose|m: int| 0 <= m < full.len() && (#[trigger] full[m]).position == cells[k];
    let digits = Seq::new(9, |k: int| full[at(k)].value.number());
    assert forall|k: int| 0 <= k < 9 implies 0 <= at(k) < full.len() && full[at(k)].position
        == cells[k] && 1 <= #[trigger] digits[k] <= 9 by {
        let m = lemma_covered(given, filled, cells[k]);
        assert(full[m].position == cells[k]);
        assert(full[at(k)].valid()) by {
            if at(k) < given.len() {
                assert(given[at(k)].valid());
            } else {
                assert(filled[at(k) - given.len()].value.in_range());
                lemma_fill_order(given);
            }
        }
    }
    assert forall|j: int, k: int| 0 <= j < k < 9 implies digits[j] != digits[k] by {
        assert(1 <= digits[j] <= 9 && 1 <= digits[k] <= 9);
        assert(peers(cells[j], cells[k]));
        if digits[j] == digits[k] {
            if at(j) < at(k) {
                assert(clash(full[at(j)], full[at(k)]));
            } else {
                assert(clash(full[at(k)], full[at(j)]));
            }
        }
    }
    lemma_nine_digits(digits, value.number());
    let k = choose|k: int| 0 <= k < 9 && digits[k] == value.number();
    assert(1 <= digits[k] <= 9);
    assert(full[at(k)].position == cells[k] && full[at(k)].value == value);
    assert forall|j: int| 0 <= j < 9 && holds(full, #[trigger] cells[j], value) implies j == k by {
        if j != k {
            let i = choose|i: int|
                0 <= i < full.len() && (#[trigger] full[i]).position == cells[j] && full[i].value
                    == value;
            if j < k {
                assert(peers(cells[j], cells[k]));
            } else {
                assert(peers(cells[k], cells[j]));
            }
            if i < at(k) {
                assert(clash(full[i], full[at(k)]));
            } else {
                assert(clash(full[at(k)], full[i]));
            }
        }
    }
    k
}

/// In a solved grid every cell holds a digit, and where no two given
/// choices sit in one cell, it holds one digit only.
pub proof fn lemma_solved_cell(
    given: Seq<SudokuChoice>,
    filled: Seq<SudokuChoice>,
    position: SudokuPosition,
) -> (m: int)
    requires
        all_valid(given),
        distinct_positions(given),
        is_completion(given, filled),
        position.in_grid(),
    ensures
        0 <= m < (given + filled).len(),
        (given + filled)[m].position == position,
        (given + filled)[m].value.in_range(),
        forall|i: int|
            0 <= i < (given + filled).len() && (#[trigger] (given + filled)[i]).position
                == position ==> i == m,
{
    let full = given + filled;
    let m = lemma_covered(given, filled, position);
    lemma_fill_order(given);
    lemma_fill_order_rising(given);
    assert forall|i: int| 0 <= i < full.len() && (#[trigger] full[i]).position == position implies i
        == m by {
        if i != m {
            let (a, b) = if i < m {
                (i, m)
            } else {
                (m, i)
            };
            if b < given.len() {
                assert(given[a].position != given[b].position);
            } else if a < given.len() {
                assert(filled[b - given.len()].position == fill_order(given)[b - given.len()]);
                assert(occupies(given, given[a].position));
            } else {
                assert(filled[a - given.len()].position == fill_order(given)[a - given.len()]);
                assert(filled[b - given.len()].position == fill_order(given)[b - given.len()]);
            }
        }
    }
    m
}

} // verus!
