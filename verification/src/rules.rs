use vstd::prelude::*;
use crate::checker::group_checker::{count_free, lemma_count_free_positive};
use crate::choice::SudokuChoice;
use crate::position::SudokuPosition;
use crate::value::SudokuValue;

verus! {

/// The two cells lie in the same 3x3 box.
pub open spec fn same_box(p: SudokuPosition, q: SudokuPosition) -> bool {
    p.row() / 3 == q.row() / 3 && p.col() / 3 == q.col() / 3
}

/// The two cells are different and share a row, a column or a box: they
/// may not hold the same value.
pub open spec fn peers(p: SudokuPosition, q: SudokuPosition) -> bool {
    p != q && (p.row() == q.row() || p.col() == q.col() || same_box(p, q))
}

/// The choice puts `value` into a cell that shares a unit with `position`.
pub open spec fn rules_out(
    choice: SudokuChoice,
    position: SudokuPosition,
    value: SudokuValue,
) -> bool {
    choice.value == value && peers(choice.position, position)
}

/// Two choices that cannot stand together: the same value in two cells
/// that share a unit.
pub open spec fn clash(a: SudokuChoice, b: SudokuChoice) -> bool {
    rules_out(a, b.position, b.value)
}

/// Some placed choice forbids `value` at `position`.
pub open spec fn forbids(
    placed: Seq<SudokuChoice>,
    position: SudokuPosition,
    value: SudokuValue,
) -> bool {
    exists|i: int| 0 <= i < placed.len() && rules_out(#[trigger] placed[i], position, value)
}

/// Some value is left that no placed choice forbids at `position`.
pub open spec fn has_candidate(placed: Seq<SudokuChoice>, position: SudokuPosition) -> bool {
    exists|value: SudokuValue| value.in_range() && !#[trigger] forbids(placed, position, value)
}

/// No two of the choices clash.
pub open spec fn clash_free(placed: Seq<SudokuChoice>) -> bool {
    forall|i: int, j: int|
        0 <= i < j < placed.len() ==> !clash(#[trigger] placed[i], #[trigger] placed[j])
}

/// All choices lie in the grid and hold a digit.
pub open spec fn all_valid(placed: Seq<SudokuChoice>) -> bool {
    forall|i: int| 0 <= i < placed.len() ==> (#[trigger] placed[i]).valid()
}

/// The choices can stand together, and they leave every cell of the grid
/// a value to take.
pub open spec fn consistent(placed: Seq<SudokuChoice>) -> bool {
    &&& all_valid(placed)
    &&& clash_free(placed)
    &&& forall|q: SudokuPosition| q.in_grid() ==> #[trigger] has_candidate(placed, q)
}

/// `choice` can be placed after `placed`: nothing placed forbids its value
/// in its cell, and with it every cell that shares a unit with its cell
/// still has a value to take.
pub open spec fn admits(placed: Seq<SudokuChoice>, choice: SudokuChoice) -> bool {
    &&& !forbids(placed, choice.position, choice.value)
    &&& forall|q: SudokuPosition|
        q.in_grid() && #[trigger] peers(choice.position, q) ==> has_candidate(
            placed.push(choice),
            q,
        )
}

/// The number of placed choices that forbid `value` at `position`.
pub open spec fn conflict_count(
    placed: Seq<SudokuChoice>,
    position: SudokuPosition,
    value: SudokuValue,
) -> nat
    decreases placed.len(),
{
    if placed.len() == 0 {
        0
    } else {
        conflict_count(placed.drop_last(), position, value) + if rules_out(
            placed.last(),
            position,
            value,
        ) {
            1nat
        } else {
            0nat
        }
    }
}

/// For each value, by its index, the number of placed choices that forbid
/// it at `position`.
pub open spec fn conflict_counts(placed: Seq<SudokuChoice>, position: SudokuPosition) -> Seq<nat> {
    Seq::new(9, |i: int| conflict_count(placed, position, SudokuValue::with_number(i + 1)))
}

/// `counts` with one more conflict against `value`.
pub open spec fn bumped(counts: Seq<nat>, value: SudokuValue) -> Seq<nat> {
    counts.update(value.index(), counts[value.index()] + 1)
}

/// `counts` with one conflict less against `value`.
pub open spec fn eased(counts: Seq<nat>, value: SudokuValue) -> Seq<nat> {
    counts.update(value.index(), (counts[value.index()] - 1) as nat)
}

/// A value is forbidden exactly when its conflict count is not zero, and
/// no count exceeds the number of placed choices.
pub proof fn lemma_conflict_count(
    placed: Seq<SudokuChoice>,
    position: SudokuPosition,
    value: SudokuValue,
)
    ensures
        conflict_count(placed, position, value) > 0 <==> forbids(placed, position, value),
        conflict_count(placed, position, value) <= placed.len(),
    decreases placed.len(),
{
    if placed.len() > 0 {
        let front = placed.drop_last();
        lemma_conflict_count(front, position, value);
        if conflict_count(placed, position, value) > 0 {
            if rules_out(placed.last(), position, value) {
                assert(rules_out(placed[placed.len() - 1], position, value));
            } else {
                let i = choose|i: int|
                    0 <= i < front.len() && rules_out(#[trigger] front[i], position, value);
                assert(rules_out(placed[i], position, value));
            }
        }
        if forbids(placed, position, value) {
            let i = choose|i: int|
                0 <= i < placed.len() && rules_out(#[trigger] placed[i], position, value);
            if i < front.len() {
                assert(rules_out(front[i], position, value));
            }
        }
    }
}

/// A cell has a value to take exactly when one of its nine conflict
/// counts is zero.
pub proof fn lemma_candidate_counts(placed: Seq<SudokuChoice>, position: SudokuPosition)
    ensures
        has_candidate(placed, position) <==> count_free(
            conflict_counts(placed, position),
        ) > 0,
{
    let counts = conflict_counts(placed, position);
    lemma_count_free_positive(counts);
    if has_candidate(placed, position) {
        let value = choose|value: SudokuValue|
            value.in_range() && !#[trigger] forbids(placed, position, value);
        lemma_conflict_count(placed, position, value);
        assert(SudokuValue::with_number(value.index() + 1) == value);
        assert(counts[value.index()] == 0);
    }
    if exists|i: int| 0 <= i < counts.len() && #[trigger] counts[i] == 0 {
        let i = choose|i: int| 0 <= i < counts.len() && #[trigger] counts[i] == 0;
        let value = SudokuValue::with_number(i + 1);
        lemma_conflict_count(placed, position, value);
        assert(value.in_range() && !forbids(placed, position, value));
    }
}

/// Placing one more choice adds one conflict against its value in every
/// cell that shares a unit with its cell, and changes no other count.
pub proof fn lemma_conflict_counts_push(
    placed: Seq<SudokuChoice>,
    choice: SudokuChoice,
    position: SudokuPosition,
)
    requires
        choice.value.in_range(),
    ensures
        conflict_counts(placed.push(choice), position) == if peers(choice.position, position) {
            bumped(conflict_counts(placed, position), choice.value)
        } else {
            conflict_counts(placed, position)
        },
{
    let longer = placed.push(choice);
    assert(longer.drop_last() =~= placed);
    assert(SudokuValue::with_number(choice.value.index() + 1) == choice.value);
    if peers(choice.position, position) {
        assert(conflict_counts(longer, position) =~= bumped(
            conflict_counts(placed, position),
            choice.value,
        ));
    } else {
        assert(conflict_counts(longer, position) =~= conflict_counts(placed, position));
    }
}

/// Taking choices away forbids nothing new.
pub proof fn lemma_forbids_prefix(
    placed: Seq<SudokuChoice>,
    len: int,
    position: SudokuPosition,
    value: SudokuValue,
)
    requires
        0 <= len <= placed.len(),
        forbids(placed.take(len), position, value),
    ensures
        forbids(placed, position, value),
{
    let front = placed.take(len);
    let i = choose|i: int| 0 <= i < front.len() && rules_out(#[trigger] front[i], position, value);
    assert(rules_out(placed[i], position, value));
}

/// Taking choices away leaves every cell the values it had to take.
pub proof fn lemma_candidate_prefix(
    placed: Seq<SudokuChoice>,
    len: int,
    position: SudokuPosition,
)
    requires
        0 <= len <= placed.len(),
        has_candidate(placed, position),
    ensures
        has_candidate(placed.take(len), position),
{
    let value = choose|value: SudokuValue|
        value.in_range() && !#[trigger] forbids(placed, position, value);
    if forbids(placed.take(len), position, value) {
        lemma_forbids_prefix(placed, len, position, value);
    }
}

} // verus!
