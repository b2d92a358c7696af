use vstd::prelude::*;
use crate::checker::group_checker::{lemma_count_free_update, SudokuGroupConflictChecker};
use crate::choice::SudokuChoice;
use crate::position::SudokuPosition;
use crate::rules::{
    admits, all_valid, bumped, clash, clash_free, conflict_counts, consistent, eased, forbids,
    has_candidate, lemma_candidate_counts, lemma_conflict_count, lemma_conflict_counts_push, peers,
    rules_out, same_box,
};
use crate::sudoku_box::SudokuBox;
use crate::value::SudokuValue;

verus! {

/// What `add_choice` did with a choice. The caller must look at it: a
/// choice that could not be added was not recorded.
#[must_use]
#[derive(Clone, Copy)]
pub enum AddChoiceResult {
    CouldNotAddChoice,
    DidAddChoice,
}

impl AddChoiceResult {
    pub fn did_add(self) -> (added: bool)
        ensures
            added == (self is DidAddChoice),
    {
        match self {
            AddChoiceResult::CouldNotAddChoice => false,
            AddChoiceResult::DidAddChoice => true,
        }
    }
}

/// Where `q` comes among the nine cells of its box, left to right, top to
/// bottom.
spec fn box_offset(q: SudokuPosition) -> int {
    3 * (q.row() % 3) + q.col() % 3
}

/// The cells that a choice at `p` touches are visited in three sweeps: down
/// the column of `p`, along its row, and over the rest of its box. This says
/// that `q` has been visited once the column sweep has passed the rows below
/// `rows`, the row sweep the columns below `cols`, and the box sweep the
/// first `cells` cells of the box. The cell `p` itself is never visited, and
/// no cell twice.
#[verifier::opaque]
spec fn reached(
    p: SudokuPosition,
    q: SudokuPosition,
    rows: int,
    cols: int,
    cells: int,
) -> bool {
    ||| q.col() == p.col() && q.row() != p.row() && q.row() < rows
    ||| q.row() == p.row() && q.col() != p.col() && q.col() < cols
    ||| same_box(p, q) && q.row() != p.row() && q.col() != p.col() && box_offset(q) < cells
}

/// Before the sweeps begin no cell is visited, and the three sweeps
/// together visit exactly the cells that share a unit with `p`.
proof fn lemma_reached_all(p: SudokuPosition, q: SudokuPosition)
    requires
        p.in_grid(),
        q.in_grid(),
    ensures
        !reached(p, q, 0, 0, 0),
        reached(p, q, 9, 9, 9) == peers(p, q),
{
    reveal(reached);
    assert(0 <= q.row() % 3 < 3 && 0 <= q.col() % 3 < 3);
}

/// One step of a sweep from `from` to `to` visits `target` if `touched`
/// says so, and no other cell.
spec fn sweep_step(
    p: SudokuPosition,
    from: (int, int, int),
    to: (int, int, int),
    target: SudokuPosition,
    touched: bool,
) -> bool {
    &&& target.in_grid()
    &&& touched ==> peers(p, target) && !reached(p, target, from.0, from.1, from.2)
    &&& forall|q: SudokuPosition|
        q.in_grid() ==> #[trigger] reached(p, q, to.0, to.1, to.2) == (reached(
            p,
            q,
            from.0,
            from.1,
            from.2,
        ) || (touched && q == target))
}

/// One step of the column sweep visits the cell of the column in row `row`,
/// unless that is `p` itself, and no other cell.
proof fn lemma_column_step(p: SudokuPosition, row: int)
    requires
        p.in_grid(),
        0 <= row < 9,
    ensures
        sweep_step(
            p,
            (row, 0, 0),
            (row + 1, 0, 0),
            SudokuPosition::at_coordinates(row, p.col()),
            row != p.row(),
        ),
{
    reveal(reached);
}

/// One step of the row sweep visits the cell of the row in column `col`,
/// unless that is `p` itself, and no other cell.
proof fn lemma_row_step(p: SudokuPosition, col: int)
    requires
        p.in_grid(),
        0 <= col < 9,
    ensures
        sweep_step(
            p,
            (9, col, 0),
            (9, col + 1, 0),
            SudokuPosition::at_coordinates(p.row(), col),
            col != p.col(),
        ),
{
    reveal(reached);
}

/// One step of the box sweep visits the cell at place `offset` of the box,
/// unless it lies in the row or the column of `p`, and no other cell.
proof fn lemma_box_step(sudoku_box: SudokuBox, p: SudokuPosition, offset: int)
    requires
        p.in_grid(),
        sudoku_box.contains(p),
        0 <= offset < 9,
    ensures
        sweep_step(
            p,
            (9, 9, offset),
            (9, 9, offset + 1),
            sudoku_box.spec_positions()[offset],
            sudoku_box.spec_positions()[offset].row() != p.row()
                && sudoku_box.spec_positions()[offset].col() != p.col(),
        ),
{
    reveal(reached);
    let cell = sudoku_box.spec_positions()[offset];
    sudoku_box.lemma_cell(p, offset);
    assert forall|q: SudokuPosition| q.in_grid() implies #[trigger] reached(p, q, 9, 9, offset + 1)
        == (reached(p, q, 9, 9, offset) || (cell.row() != p.row() && cell.col() != p.col() && q
        == cell)) by {
        if same_box(p, q) {
            sudoku_box.lemma_cell_at_offset(p, q);
        }
    }
}

/// The tally of a cell after a sweep has visited it: one conflict more
/// against `value`, or one less where `adding` is false.
spec fn changed(counts: Seq<nat>, value: SudokuValue, adding: bool) -> Seq<nat> {
    if adding {
        bumped(counts, value)
    } else {
        eased(counts, value)
    }
}

/// What a sweep has done so far: the tallies of the cells that it has
/// visited are changed, and the other cells are as they were in `start`.
spec fn swept(
    start: Seq<SudokuGroupConflictChecker>,
    now: Seq<SudokuGroupConflictChecker>,
    p: SudokuPosition,
    value: SudokuValue,
    adding: bool,
    rows: int,
    cols: int,
    cells: int,
) -> bool {
    forall|q: SudokuPosition|
        q.in_grid() ==> (#[trigger] now[q.scan_index()])@ == if reached(p, q, rows, cols, cells) {
            changed(start[q.scan_index()]@, value, adding)
        } else {
            start[q.scan_index()]@
        }
}

/// Every cell that the sweep has visited so far can be restricted by
/// `value`.
spec fn sweep_allows(
    checkers: Seq<SudokuGroupConflictChecker>,
    p: SudokuPosition,
    value: SudokuValue,
    rows: int,
    cols: int,
    cells: int,
) -> bool {
    forall|q: SudokuPosition|
        q.in_grid() && reached(p, q, rows, cols, cells) ==> (
        #[trigger] checkers[q.scan_index()]).spec_can_restrict_here(value)
}

/// A step of a sweep that changes the checker of the cell it visits, and
/// no other, keeps the account of what the sweep has done.
proof fn lemma_swept_step(
    start: Seq<SudokuGroupConflictChecker>,
    before: Seq<SudokuGroupConflictChecker>,
    now: Seq<SudokuGroupConflictChecker>,
    p: SudokuPosition,
    value: SudokuValue,
    adding: bool,
    from: (int, int, int),
    to: (int, int, int),
    target: SudokuPosition,
    touched: bool,
)
    requires
        p.in_grid(),
        before.len() == 81,
        swept(start, before, p, value, adding, from.0, from.1, from.2),
        sweep_step(p, from, to, target, touched),
        !touched ==> now == before,
        touched ==> now == before.update(target.scan_index(), now[target.scan_index()]),
        touched ==> now[target.scan_index()]@ == changed(
            before[target.scan_index()]@,
            value,
            adding,
        ),
    ensures
        swept(start, now, p, value, adding, to.0, to.1, to.2),
{
    assert forall|q: SudokuPosition| q.in_grid() implies (#[trigger] now[q.scan_index()])@
        == if reached(p, q, to.0, to.1, to.2) {
        changed(start[q.scan_index()]@, value, adding)
    } else {
        start[q.scan_index()]@
    } by {
        assert(before[q.scan_index()]@ == if reached(p, q, from.0, from.1, from.2) {
            changed(start[q.scan_index()]@, value, adding)
        } else {
            start[q.scan_index()]@
        });
        assert(before[target.scan_index()]@ == if reached(p, target, from.0, from.1, from.2) {
            changed(start[target.scan_index()]@, value, adding)
        } else {
            start[target.scan_index()]@
        });
    }
}

/// A step of a sweep that finds the cell it visits open to the value
/// keeps the finding for all cells visited.
proof fn lemma_allows_step(
    checkers: Seq<SudokuGroupConflictChecker>,
    p: SudokuPosition,
    value: SudokuValue,
    from: (int, int, int),
    to: (int, int, int),
    target: SudokuPosition,
    touched: bool,
)
    requires
        sweep_allows(checkers, p, value, from.0, from.1, from.2),
        sweep_step(p, from, to, target, touched),
        touched ==> checkers[target.scan_index()].spec_can_restrict_here(value),
    ensures
        sweep_allows(checkers, p, value, to.0, to.1, to.2),
{
    assert forall|q: SudokuPosition|
        q.in_grid() && reached(p, q, to.0, to.1, to.2) implies (
    #[trigger] checkers[q.scan_index()]).spec_can_restrict_here(value) by {
        if !reached(p, q, from.0, from.1, from.2) {
            assert(q == target);
        }
    }
}

/// The tracker of the whole grid: one conflict checker for each of the 81
/// cells, kept in step with the choices that were added and not removed
/// since. The view is the stack of those choices, oldest first.
pub struct SudokuGridConflictChecker {
    // The checker of the cell in row `r` and column `c` is at `9 * r + c`.
    pub(crate) cell_checkers: Vec<SudokuGroupConflictChecker>,
    pub(crate) committed: Ghost<Seq<SudokuChoice>>,
}

impl View for SudokuGridConflictChecker {
    type V = Seq<SudokuChoice>;

    open(crate) spec fn view(&self) -> Seq<SudokuChoice> {
        self.committed@
    }
}

impl Default for SudokuGridConflictChecker {
    /// A tracker with nothing committed, as `new` makes it.
    fn default() -> (checker: SudokuGridConflictChecker)
        ensures
            checker.wf(),
            checker@ == Seq::<SudokuChoice>::empty(),
            forall|q: SudokuPosition|
                q.in_grid() ==> (#[trigger] checker.cell(q))@ == Seq::new(9, |i: int| 0nat)
                    && checker.cell(q).free_values() == 9,
    {
        SudokuGridConflictChecker::new()
    }
}

impl SudokuGridConflictChecker {
    /// The checker that keeps the tally of the cell at `position`.
    pub open(crate) spec fn cell(&self, position: SudokuPosition) -> SudokuGroupConflictChecker {
        self.cell_checkers@[position.scan_index()]
    }

    /// There are 81 cell checkers and each counts its free values rightly.
    pub open(crate) spec fn cells_wf(&self) -> bool {
        &&& self.cell_checkers@.len() == 81
        &&& forall|q: SudokuPosition|
            q.in_grid() ==> (#[trigger] self.cell_checkers@[q.scan_index()]).wf()
    }

    /// The tallies are those of the committed choices: the checker of each
    /// cell holds, for each value, the number of committed choices that
    /// forbid the value there. No two committed choices clash, and every
    /// cell has a value left to take.
    pub open(crate) spec fn wf(&self) -> bool {
        &&& self.cells_wf()
        &&& all_valid(self@)
        &&& clash_free(self@)
        &&& forall|q: SudokuPosition|
            q.in_grid() ==> (#[trigger] self.cell_checkers@[q.scan_index()])@ == conflict_counts(
                self@,
                q,
            )
        &&& forall|q: SudokuPosition|
            q.in_grid() ==> (#[trigger] self.cell_checkers@[q.scan_index()]).free_values() >= 1
    }

    /// Whether `value` could be stored at `position` as far as the tallies go.
    pub open spec fn spec_can_store_here(
        &self,
        position: SudokuPosition,
        value: SudokuValue,
    ) -> bool {
        self.cell(position).spec_can_store_here(value)
    }

    /// Whether the cell at `position` would keep a value to take if a cell
    /// in one of its units were given `value`.
    pub open spec fn spec_can_restrict_here(
        &self,
        position: SudokuPosition,
        value: SudokuValue,
    ) -> bool {
        self.cell(position).spec_can_restrict_here(value)
    }

    /// The answers of a well-formed tracker say what the committed choices
    /// allow: a value can be stored where no committed choice forbids it,
    /// and a cell can be restricted by any value but its last free one.
    pub proof fn lemma_answers(&self, position: SudokuPosition, value: SudokuValue)
        requires
            self.wf(),
            position.in_grid(),
            value.in_range(),
        ensures
            self.spec_can_store_here(position, value) == !forbids(self@, position, value),
            self.cell(position)@ == conflict_counts(self@, position),
            self.cell(position).wf(),
            has_candidate(self@, position),
            !self.spec_can_restrict_here(position, value) ==> !forbids(self@, position, value)
                && forall|other: SudokuValue|
                other.in_range() && other != value ==> forbids(self@, position, other),
    {
        let k = position.scan_index();
        let counts = conflict_counts(self@, position);
        assert(self.cell_checkers@[k]@ == counts);
        assert(self.cell_checkers@[k].free_values() >= 1);
        assert(self.cell_checkers@[k].wf());
        assert(SudokuValue::with_number(value.index() + 1) == value);
        lemma_conflict_count(self@, position, value);
        lemma_candidate_counts(self@, position);
        if !self.spec_can_restrict_here(position, value) {
            assert forall|other: SudokuValue| other.in_range() && other != value implies forbids(
                self@,
                position,
                other,
            ) by {
                assert(SudokuValue::with_number(other.index() + 1) == other);
                lemma_conflict_count(self@, position, other);
                if counts[other.index()] == 0 {
                    lemma_count_free_update(counts, value.index(), 1);
                    lemma_count_free_update(counts.update(value.index(), 1), other.index(), 1);
                }
            }
        }
    }

    /// The committed choices of a well-formed tracker are consistent.
    pub proof fn lemma_consistent(&self)
        requires
            self.wf(),
        ensures
            consistent(self@),
    {
        assert forall|q: SudokuPosition| q.in_grid() implies #[trigger] has_candidate(self@, q) by {
            self.lemma_answers(q, SudokuValue::with_number(1));
        }
    }

    /// What the tallies answer for a choice is what the committed choices
    /// admit: the choice can be stored in its cell and restricts no cell
    /// that shares a unit with it to nothing, exactly when the committed
    /// choices admit it.
    pub proof fn lemma_admits(&self, choice: SudokuChoice)
        requires
            self.wf(),
            choice.valid(),
        ensures
            admits(self@, choice) == (self.spec_can_store_here(choice.position, choice.value)
                && forall|q: SudokuPosition|
                q.in_grid() && #[trigger] peers(choice.position, q) ==> self.spec_can_restrict_here(
                    q,
                    choice.value,
                )),
    {
        self.lemma_answers(choice.position, choice.value);
        assert forall|q: SudokuPosition| q.in_grid() && peers(choice.position, q) implies (
        has_candidate(self@.push(choice), q) == self.spec_can_restrict_here(q, choice.value)) by {
            self.lemma_restricts(choice, q);
        }
    }

    /// A cell that shares a unit with the cell of `choice` keeps a value to
    /// take after `choice` exactly when the tracker answers that it can be
    /// restricted by the value of `choice`.
    pub proof fn lemma_restricts(&self, choice: SudokuChoice, q: SudokuPosition)
        requires
            self.wf(),
            choice.valid(),
            q.in_grid(),
            peers(choice.position, q),
        ensures
            has_candidate(self@.push(choice), q) == self.spec_can_restrict_here(q, choice.value),
    {
        let counts = conflict_counts(self@, q);
        self.lemma_answers(q, choice.value);
        lemma_conflict_counts_push(self@, choice, q);
        lemma_candidate_counts(self@.push(choice), q);
        lemma_count_free_update(counts, choice.value.index(), counts[choice.value.index()] + 1);
    }

    /// Adding a choice and removing it at once leaves the tracker with the
    /// answers it gave before, for every cell and every value.
    ///
    /// `before`, `between` and `after` are the tracker before the two calls,
    /// between them and after them.
    pub proof fn lemma_add_then_remove_restores(
        before: &SudokuGridConflictChecker,
        between: &SudokuGridConflictChecker,
        after: &SudokuGridConflictChecker,
        choice: SudokuChoice,
        position: SudokuPosition,
        value: SudokuValue,
    )
        requires
            before.wf(),
            after.wf(),
            between@ == before@.push(choice),
            after@ == between@.drop_last(),
            position.in_grid(),
            value.in_range(),
        ensures
            after@ == before@,
            after.cell(position)@ == before.cell(position)@,
            after.cell(position).free_values() == before.cell(position).free_values(),
            after.spec_can_store_here(position, value) == before.spec_can_store_here(
                position,
                value,
            ),
            after.spec_can_restrict_here(position, value) == before.spec_can_restrict_here(
                position,
                value,
            ),
    {
        assert(before@.push(choice).drop_last() =~= before@);
        before.lemma_answers(position, value);
        after.lemma_answers(position, value);
    }

    /// Whatever was committed, the cell of each committed choice still has
    /// a value to take, and the value that it holds is still free there.
    pub proof fn lemma_placed_cells_satisfiable(&self, i: int)
        requires
            self.wf(),
            0 <= i < self@.len(),
        ensures
            self.cell(self@[i].position).wf(),
            self.cell(self@[i].position).free_values() >= 1,
            self.spec_can_store_here(self@[i].position, self@[i].value),
    {
        let placed = self@[i];
        assert(placed.valid());
        self.lemma_answers(placed.position, placed.value);
        if forbids(self@, placed.position, placed.value) {
            let j = choose|j: int|
                0 <= j < self@.len() && rules_out(
                    #[trigger] self@[j],
                    placed.position,
                    placed.value,
                );
            if j < i {
                assert(clash(self@[j], self@[i]));
            } else {
                assert(clash(self@[i], self@[j]));
            }
        }
    }

    /// A tracker with nothing committed: every cell is free to take any value.
    pub fn new() -> (checker: SudokuGridConflictChecker)
        ensures
            checker.wf(),
            checker@ == Seq::<SudokuChoice>::empty(),
            forall|q: SudokuPosition|
                q.in_grid() ==> (#[trigger] checker.cell(q))@ == Seq::new(9, |i: int| 0nat)
                    && checker.cell(q).free_values() == 9,
    {
        let mut cell_checkers: Vec<SudokuGroupConflictChecker> = Vec::new();
        for k in 0..81usize
            invariant
                cell_checkers@.len() == k,
                forall|j: int|
                    0 <= j < k ==> (#[trigger] cell_checkers@[j]).wf() && cell_checkers@[j]@
                        == Seq::new(9, |i: int| 0nat) && cell_checkers@[j].free_values() == 9,
        {
            cell_checkers.push(SudokuGroupConflictChecker::new());
        }
        let checker = SudokuGridConflictChecker { cell_checkers, committed: Ghost(Seq::empty()) };
        proof {
            assert forall|q: SudokuPosition| q.in_grid() implies (
            #[trigger] checker.cell_checkers@[q.scan_index()])@ == conflict_counts(checker@, q) by {
                assert(checker.cell_checkers@[q.scan_index()]@ =~= conflict_counts(checker@, q));
            }
            assert forall|q: SudokuPosition| q.in_grid() implies (#[trigger] checker.cell(q))@
                == Seq::new(9, |i: int| 0nat) && checker.cell(q).free_values() == 9 by {
                assert(checker.cell(q) == checker.cell_checkers@[q.scan_index()]);
            }
        }
        checker
    }

    /// Records `choice`, if it can be: if nothing committed forbids its value
    /// in its cell, and if it leaves a value to take to every cell that
    /// shares a unit with its cell. Then each of those cells gets one more
    /// conflict against the value, and the choice's own cell none. Otherwise
    /// nothing changes.
    ///
    /// A conflict count is a `u8`: the tracker takes fewer than 255 choices.
    pub fn add_choice(&mut self, choice: SudokuChoice) -> (result: AddChoiceResult)
        requires
            old(self).wf(),
            old(self)@.len() < u8::MAX,
        ensures
            final(self).wf(),
            (result is DidAddChoice) == admits(old(self)@, choice),
            (result is DidAddChoice) == (old(self).spec_can_store_here(
                choice.position,
                choice.value,
            ) && forall|q: SudokuPosition|
                q.in_grid() && #[trigger] peers(choice.position, q) ==> old(
                    self,
                ).spec_can_restrict_here(q, choice.value)),
            (result is DidAddChoice) ==> final(self)@ == old(self)@.push(choice),
            (result is DidAddChoice) ==> forall|q: SudokuPosition|
                q.in_grid() ==> (#[trigger] final(self).cell(q))@ == if peers(choice.position, q) {
                    bumped(old(self).cell(q)@, choice.value)
                } else {
                    old(self).cell(q)@
                },
            result is CouldNotAddChoice ==> *final(self) == *old(self),
    {
        proof {
            use_type_invariant(&choice.position);
            use_type_invariant(&choice.value);
            self.lemma_admits(choice);
        }
        if self.can_accomodate_choice(choice) {
            proof {
                assert forall|q: SudokuPosition|
                    q.in_grid() && peers(choice.position, q) implies (
                #[trigger] self.cell_checkers@[q.scan_index()]).conflicts(choice.value)
                    < u8::MAX by {
                    lemma_conflict_count(self@, q, choice.value);
                    assert(SudokuValue::with_number(choice.value.index() + 1) == choice.value);
                }
            }
            self.propagate_conflicts(choice);
            proof {
                self.committed@ = self.committed@.push(choice);
                assert forall|q: SudokuPosition| q.in_grid() implies (
                #[trigger] self.cell_checkers@[q.scan_index()])@ == conflict_counts(self@, q)
                    && self.cell_checkers@[q.scan_index()].free_values() >= 1 by {
                    let counts = old(self).cell_checkers@[q.scan_index()]@;
                    assert(old(self).cell_checkers@[q.scan_index()].free_values() >= 1);
                    lemma_conflict_counts_push(old(self)@, choice, q);
                    if peers(choice.position, q) {
                        assert(old(self).spec_can_restrict_here(q, choice.value));
                        lemma_count_free_update(
                            counts,
                            choice.value.index(),
                            counts[choice.value.index()] + 1,
                        );
                    }
                }
                assert forall|i: int, j: int| 0 <= i < j < self@.len() implies !clash(
                    #[trigger] self@[i],
                    #[trigger] self@[j],
                ) by {
                    if j == old(self)@.len() {
                        assert(!rules_out(old(self)@[i], choice.position, choice.value));
                    } else {
                        assert(!clash(old(self)@[i], old(self)@[j]));
                    }
                }
                assert forall|q: SudokuPosition| q.in_grid() implies (#[trigger] self.cell(q))@
                    == if peers(choice.position, q) {
                    bumped(old(self).cell(q)@, choice.value)
                } else {
                    old(self).cell(q)@
                } by {
                    assert(self.cell(q) == self.cell_checkers@[q.scan_index()]);
                }
            }
            AddChoiceResult::DidAddChoice
        } else {
            AddChoiceResult::CouldNotAddChoice
        }
    }

    /// Takes back `choice`, which must be the last choice that was added
    /// and not yet removed: every cell that shares a unit with its cell
    /// loses the conflict that the choice made there.
    pub fn remove_choice(&mut self, choice: SudokuChoice)
        requires
            old(self).wf(),
            old(self)@.len() > 0,
            old(self)@.last() == choice,
        ensures
            final(self).wf(),
            final(self)@ == old(self)@.drop_last(),
            forall|q: SudokuPosition|
                q.in_grid() ==> (#[trigger] final(self).cell(q))@ == if peers(choice.position, q) {
                    eased(old(self).cell(q)@, choice.value)
                } else {
                    old(self).cell(q)@
                },
    {
        let ghost front = self@.drop_last();
        proof {
            assert(front.push(choice) =~= self@);
            assert(self@[self@.len() - 1].valid());
            assert forall|q: SudokuPosition| q.in_grid() implies (
            #[trigger] self.cell_checkers@[q.scan_index()])@ == (if peers(choice.position, q) {
                bumped(conflict_counts(front, q), choice.value)
            } else {
                conflict_counts(front, q)
            }) by {
                lemma_conflict_counts_push(front, choice, q);
            }
        }
        self.unpropagate_conflicts(choice);
        proof {
            self.committed@ = front;
            assert forall|q: SudokuPosition| q.in_grid() implies (
            #[trigger] self.cell_checkers@[q.scan_index()])@ == conflict_counts(self@, q)
                && self.cell_checkers@[q.scan_index()].free_values() >= 1 by {
                let counts = old(self).cell_checkers@[q.scan_index()]@;
                assert(old(self).cell_checkers@[q.scan_index()].free_values() >= 1);
                if peers(choice.position, q) {
                    let less = conflict_counts(front, q);
                    assert(eased(bumped(less, choice.value), choice.value) =~= less);
                    lemma_count_free_update(
                        counts,
                        choice.value.index(),
                        (counts[choice.value.index()] - 1) as nat,
                    );
                }
            }
            assert forall|i: int, j: int| 0 <= i < j < self@.len() implies !clash(
                #[trigger] self@[i],
                #[trigger] self@[j],
            ) by {
                assert(!clash(old(self)@[i], old(self)@[j]));
            }
            assert forall|i: int| 0 <= i < self@.len() implies (#[trigger] self@[i]).valid() by {
                assert(old(self)@[i].valid());
            }
            assert forall|q: SudokuPosition| q.in_grid() implies (#[trigger] self.cell(q))@
                == if peers(choice.position, q) {
                eased(old(self).cell(q)@, choice.value)
            } else {
                old(self).cell(q)@
            } by {
                assert(self.cell(q) == self.cell_checkers@[q.scan_index()]);
            }
        }
    }

    /// Whether `choice` can be stored in its own cell and restricts no cell
    /// that shares a unit with it to nothing.
    fn can_accomodate_choice(&self, choice: SudokuChoice) -> (can_accomodate: bool)
        requires
            self.cells_wf(),
            forall|q: SudokuPosition|
                q.in_grid() ==> (#[trigger] self.cell_checkers@[q.scan_index()]).free_values() >= 1,
        ensures
            can_accomodate == (self.spec_can_store_here(choice.position, choice.value)
                && forall|q: SudokuPosition|
                q.in_grid() && #[trigger] peers(choice.position, q) ==> self.spec_can_restrict_here(
                    q,
                    choice.value,
                )),
    {
        let (choice_row_idx, choice_col_idx) = choice.position.as_usize_pair();
        let ghost p = choice.position;
        proof {
            use_type_invariant(&choice.position);
            assert forall|q: SudokuPosition| q.in_grid() implies !#[trigger] reached(
                p,
                q,
                0,
                0,
                0,
            ) by {
                lemma_reached_all(p, q);
            }
        }

        if !self.cell_checkers[choice_row_idx * 9 + choice_col_idx].can_store_here(choice.value) {
            return false;
        }
        // The other cells of the column.

        for new_row_idx in 0..9usize
            invariant
                self.cells_wf(),
                p == choice.position,
                p.in_grid(),
                choice_row_idx == p.row(),
                choice_col_idx == p.col(),
                self.spec_can_store_here(p, choice.value),
                forall|q: SudokuPosition|
                    q.in_grid() ==> (#[trigger] self.cell_checkers@[q.scan_index()]).free_values()
                        >= 1,
                sweep_allows(self.cell_checkers@, p, choice.value, new_row_idx as int, 0, 0),
        {
            let ghost target = SudokuPosition::at_coordinates(new_row_idx as int, p.col());
            proof {
                lemma_column_step(p, new_row_idx as int);
            }
            if new_row_idx != choice_row_idx {
                assert(target.scan_index() == new_row_idx * 9 + choice_col_idx);
                if !self.cell_checkers[new_row_idx * 9 + choice_col_idx].can_restrict_here(
                    choice.value,
                ) {
                    assert(!self.spec_can_restrict_here(target, choice.value));
                    return false;
                }
            }
            proof {
                lemma_allows_step(
                    self.cell_checkers@,
                    p,
                    choice.value,
                    (new_row_idx as int, 0, 0),
                    (new_row_idx + 1, 0, 0),
                    target,
                    new_row_idx != choice_row_idx,
                );
            }
        }
        // The other cells of the row.

        for new_col_idx in 0..9usize
            invariant
                self.cells_wf(),
                p == choice.position,
                p.in_grid(),
                choice_row_idx == p.row(),
                choice_col_idx == p.col(),
                self.spec_can_store_here(p, choice.value),
                forall|q: SudokuPosition|
                    q.in_grid() ==> (#[trigger] self.cell_checkers@[q.scan_index()]).free_values()
                        >= 1,
                sweep_allows(self.cell_checkers@, p, choice.value, 9, new_col_idx as int, 0),
        {
            let ghost target = SudokuPosition::at_coordinates(p.row(), new_col_idx as int);
            proof {
                lemma_row_step(p, new_col_idx as int);
            }
            if new_col_idx != choice_col_idx {
                assert(target.scan_index() == choice_row_idx * 9 + new_col_idx);
                if !self.cell_checkers[choice_row_idx * 9 + new_col_idx].can_restrict_here(
                    choice.value,
                ) {
                    assert(!self.spec_can_restrict_here(target, choice.value));
                    return false;
                }
            }
            proof {
                lemma_allows_step(
                    self.cell_checkers@,
                    p,
                    choice.value,
                    (9, new_col_idx as int, 0),
                    (9, new_col_idx + 1, 0),
                    target,
                    new_col_idx != choice_col_idx,
                );
            }
        }
        // The cells of the box that lie in neither.

        let sudoku_box = SudokuBox::for_position(choice.position);
        let box_positions = sudoku_box.positions();
        for cell_idx in 0..9usize
            invariant
                self.cells_wf(),
                p == choice.position,
                p.in_grid(),
                choice_row_idx == p.row(),
                choice_col_idx == p.col(),
                self.spec_can_store_here(p, choice.value),
                sudoku_box.contains(p),
                box_positions@ == sudoku_box.spec_positions(),
                forall|q: SudokuPosition|
                    q.in_grid() ==> (#[trigger] self.cell_checkers@[q.scan_index()]).free_values()
                        >= 1,
                sweep_allows(self.cell_checkers@, p, choice.value, 9, 9, cell_idx as int),
        {
            let box_pos = box_positions[cell_idx];
            let (box_pos_row_idx, box_pos_col_idx) = box_pos.as_usize_pair();
            proof {
                lemma_box_step(sudoku_box, p, cell_idx as int);
            }
            if box_pos_row_idx == choice_row_idx {
            } else if box_pos_col_idx == choice_col_idx {
            } else {
                assert(box_pos.scan_index() == box_pos_row_idx * 9 + box_pos_col_idx);
                if !self.cell_checkers[box_pos_row_idx * 9 + box_pos_col_idx].can_restrict_here(
                    choice.value,
                ) {
                    assert(!self.spec_can_restrict_here(box_pos, choice.value));
                    return false;
                }
            }
            proof {
                lemma_allows_step(
                    self.cell_checkers@,
                    p,
                    choice.value,
                    (9, 9, cell_idx as int),
                    (9, 9, cell_idx + 1),
                    box_pos,
                    box_pos_row_idx != choice_row_idx && box_pos_col_idx != choice_col_idx,
                );
            }
        }
        proof {
            assert forall|q: SudokuPosition|
                q.in_grid() && #[trigger] peers(p, q) implies self.spec_can_restrict_here(
                q,
                choice.value,
            ) by {
                lemma_reached_all(p, q);
                assert(self.cell_checkers@[q.scan_index()].spec_can_restrict_here(choice.value));
            }
        }
        true
    }

    /// Records the conflict that `choice` makes in every cell that shares a
    /// unit with its cell.
    fn propagate_conflicts(&mut self, choice: SudokuChoice)
        requires
            old(self).cells_wf(),
            forall|q: SudokuPosition|
                q.in_grid() && peers(choice.position, q) ==> (
                #[trigger] old(self).cell_checkers@[q.scan_index()]).conflicts(choice.value)
                    < u8::MAX,
        ensures
            final(self).cells_wf(),
            final(self)@ == old(self)@,
            forall|q: SudokuPosition|
                q.in_grid() ==> (#[trigger] final(self).cell_checkers@[q.scan_index()])@
                    == if peers(choice.position, q) {
                    bumped(old(self).cell_checkers@[q.scan_index()]@, choice.value)
                } else {
                    old(self).cell_checkers@[q.scan_index()]@
                },
    {
        let (choice_row_idx, choice_col_idx) = choice.position.as_usize_pair();
        let ghost p = choice.position;
        let ghost start = self.cell_checkers@;
        proof {
            use_type_invariant(&choice.position);
            assert forall|q: SudokuPosition| q.in_grid() implies !#[trigger] reached(
                p,
                q,
                0,
                0,
                0,
            ) by {
                lemma_reached_all(p, q);
            }
        }
        // The cell of the choice itself is left alone: a cell is not in
        // conflict with its own value.
        // The other cells of the column.

        for new_row_idx in 0..9usize
            invariant
                self.cells_wf(),
                self@ == old(self)@,
                start == old(self).cell_checkers@,
                p == choice.position,
                p.in_grid(),
                choice_row_idx == p.row(),
                choice_col_idx == p.col(),
                forall|q: SudokuPosition|
                    q.in_grid() && peers(p, q) ==> (#[trigger] start[q.scan_index()]).conflicts(
                        choice.value,
                    ) < u8::MAX,
                swept(start, self.cell_checkers@, p, choice.value, true, new_row_idx as int, 0, 0),
        {
            let ghost target = SudokuPosition::at_coordinates(new_row_idx as int, p.col());
            let ghost before = self.cell_checkers@;
            proof {
                lemma_column_step(p, new_row_idx as int);
            }
            if new_row_idx != choice_row_idx {
                assert(target.scan_index() == new_row_idx * 9 + choice_col_idx);
                assert(before[target.scan_index()]@ == start[target.scan_index()]@);
                self.cell_checkers[new_row_idx * 9 + choice_col_idx].add_conflict(choice.value);
            }
            proof {
                lemma_swept_step(
                    start,
                    before,
                    self.cell_checkers@,
                    p,
                    choice.value,
                    true,
                    (new_row_idx as int, 0, 0),
                    (new_row_idx + 1, 0, 0),
                    target,
                    new_row_idx != choice_row_idx,
                );
            }
        }
        // The other cells of the row.

        for new_col_idx in 0..9usize
            invariant
                self.cells_wf(),
                self@ == old(self)@,
                start == old(self).cell_checkers@,
                p == choice.position,
                p.in_grid(),
                choice_row_idx == p.row(),
                choice_col_idx == p.col(),
                forall|q: SudokuPosition|
                    q.in_grid() && peers(p, q) ==> (#[trigger] start[q.scan_index()]).conflicts(
                        choice.value,
                    ) < u8::MAX,
                swept(start, self.cell_checkers@, p, choice.value, true, 9, new_col_idx as int, 0),
        {
            let ghost target = SudokuPosition::at_coordinates(p.row(), new_col_idx as int);
            let ghost before = self.cell_checkers@;
            proof {
                lemma_row_step(p, new_col_idx as int);
            }
            if new_col_idx != choice_col_idx {
                assert(target.scan_index() == choice_row_idx * 9 + new_col_idx);
                assert(before[target.scan_index()]@ == start[target.scan_index()]@);
                self.cell_checkers[choice_row_idx * 9 + new_col_idx].add_conflict(choice.value);
            }
            proof {
                lemma_swept_step(
                    start,
                    before,
                    self.cell_checkers@,
                    p,
                    choice.value,
                    true,
                    (9, new_col_idx as int, 0),
                    (9, new_col_idx + 1, 0),
                    target,
                    new_col_idx != choice_col_idx,
                );
            }
        }
        // The cells of the box that lie in neither.

        let sudoku_box = SudokuBox::for_position(choice.position);
        let box_positions = sudoku_box.positions();
        for cell_idx in 0..9usize
            invariant
                self.cells_wf(),
                self@ == old(self)@,
                start == old(self).cell_checkers@,
                p == choice.position,
                p.in_grid(),
                choice_row_idx == p.row(),
                choice_col_idx == p.col(),
                sudoku_box.contains(p),
                box_positions@ == sudoku_box.spec_positions(),
                forall|q: SudokuPosition|
                    q.in_grid() && peers(p, q) ==> (#[trigger] start[q.scan_index()]).conflicts(
                        choice.value,
                    ) < u8::MAX,
                swept(start, self.cell_checkers@, p, choice.value, true, 9, 9, cell_idx as int),
        {
            let box_pos = box_positions[cell_idx];
            let (box_pos_row_idx, box_pos_col_idx) = box_pos.as_usize_pair();
            let ghost before = self.cell_checkers@;
            proof {
                lemma_box_step(sudoku_box, p, cell_idx as int);
            }
            if box_pos_row_idx == choice_row_idx {
            } else if box_pos_col_idx == choice_col_idx {
            } else {
                assert(box_pos.scan_index() == box_pos_row_idx * 9 + box_pos_col_idx);
                assert(before[box_pos.scan_index()]@ == start[box_pos.scan_index()]@);
                self.cell_checkers[box_pos_row_idx * 9 + box_pos_col_idx].add_conflict(
                    choice.value,
                );
            }
            proof {
                lemma_swept_step(
                    start,
                    before,
                    self.cell_checkers@,
                    p,
                    choice.value,
                    true,
                    (9, 9, cell_idx as int),
                    (9, 9, cell_idx + 1),
                    box_pos,
                    box_pos_row_idx != choice_row_idx && box_pos_col_idx != choice_col_idx,
                );
            }
        }
        proof {
            assert forall|q: SudokuPosition| q.in_grid() implies (
            #[trigger] self.cell_checkers@[q.scan_index()])@ == if peers(p, q) {
                bumped(start[q.scan_index()]@, choice.value)
            } else {
                start[q.scan_index()]@
            } by {
                lemma_reached_all(p, q);
            }
        }
    }

    /// Takes back the conflict that `choice` made in every cell that shares a
    /// unit with its cell.
    fn unpropagate_conflicts(&mut self, choice: SudokuChoice)
        requires
            old(self).cells_wf(),
            forall|q: SudokuPosition|
                q.in_grid() && peers(choice.position, q) ==> (
                #[trigger] old(self).cell_checkers@[q.scan_index()]).conflicts(choice.value) > 0,
        ensures
            final(self).cells_wf(),
            final(self)@ == old(self)@,
            forall|q: SudokuPosition|
                q.in_grid() ==> (#[trigger] final(self).cell_checkers@[q.scan_index()])@
                    == if peers(choice.position, q) {
                    eased(old(self).cell_checkers@[q.scan_index()]@, choice.value)
                } else {
                    old(self).cell_checkers@[q.scan_index()]@
                },
    {
        let (choice_row_idx, choice_col_idx) = choice.position.as_usize_pair();
        let ghost p = choice.position;
        let ghost start = self.cell_checkers@;
        proof {
            use_type_invariant(&choice.position);
            assert forall|q: SudokuPosition| q.in_grid() implies !#[trigger] reached(
                p,
                q,
                0,
                0,
                0,
            ) by {
                lemma_reached_all(p, q);
            }
        }
        // The cell of the choice itself is left alone: a cell is not in
        // conflict with its own value.
        // The other cells of the column.

        for new_row_idx in 0..9usize
            invariant
                self.cells_wf(),
                self@ == old(self)@,
                start == old(self).cell_checkers@,
                p == choice.position,
                p.in_grid(),
                choice_row_idx == p.row(),
                choice_col_idx == p.col(),
                forall|q: SudokuPosition|
                    q.in_grid() && peers(p, q) ==> (#[trigger] start[q.scan_index()]).conflicts(
                        choice.value,
                    ) > 0,
                swept(start, self.cell_checkers@, p, choice.value, false, new_row_idx as int, 0, 0),
        {
            let ghost target = SudokuPosition::at_coordinates(new_row_idx as int, p.col());
            let ghost before = self.cell_checkers@;
            proof {
                lemma_column_step(p, new_row_idx as int);
            }
            if new_row_idx != choice_row_idx {
                assert(target.scan_index() == new_row_idx * 9 + choice_col_idx);
                assert(before[target.scan_index()]@ == start[target.scan_index()]@);
                self.cell_checkers[new_row_idx * 9 + choice_col_idx].remove_conflict(choice.value);
            }
            proof {
                lemma_swept_step(
                    start,
                    before,
                    self.cell_checkers@,
                    p,
                    choice.value,
                    false,
                    (new_row_idx as int, 0, 0),
                    (new_row_idx + 1, 0, 0),
                    target,
                    new_row_idx != choice_row_idx,
                );
            }
        }
        // The other cells of the row.

        for new_col_idx in 0..9usize
            invariant
                self.cells_wf(),
                self@ == old(self)@,
                start == old(self).cell_checkers@,
                p == choice.position,
                p.in_grid(),
                choice_row_idx == p.row(),
                choice_col_idx == p.col(),
                forall|q: SudokuPosition|
                    q.in_grid() && peers(p, q) ==> (#[trigger] start[q.scan_index()]).conflicts(
                        choice.value,
                    ) > 0,
                swept(start, self.cell_checkers@, p, choice.value, false, 9, new_col_idx as int, 0),
        {
            let ghost target = SudokuPosition::at_coordinates(p.row(), new_col_idx as int);
            let ghost before = self.cell_checkers@;
            proof {
                lemma_row_step(p, new_col_idx as int);
            }
            if new_col_idx != choice_col_idx {
                assert(target.scan_index() == choice_row_idx * 9 + new_col_idx);
                assert(before[target.scan_index()]@ == start[target.scan_index()]@);
                self.cell_checkers[choice_row_idx * 9 + new_col_idx].remove_conflict(choice.value);
            }
            proof {
                lemma_swept_step(
                    start,
                    before,
                    self.cell_checkers@,
                    p,
                    choice.value,
                    false,
                    (9, new_col_idx as int, 0),
                    (9, new_col_idx + 1, 0),
                    target,
                    new_col_idx != choice_col_idx,
                );
            }
        }
        // The cells of the box that lie in neither.

        let sudoku_box = SudokuBox::for_position(choice.position);
        let box_positions = sudoku_box.positions();
        for cell_idx in 0..9usize
            invariant
                self.cells_wf(),
                self@ == old(self)@,
                start == old(self).cell_checkers@,
                p == choice.position,
                p.in_grid(),
                choice_row_idx == p.row(),
                choice_col_idx == p.col(),
                sudoku_box.contains(p),
                box_positions@ == sudoku_box.spec_positions(),
                forall|q: SudokuPosition|
                    q.in_grid() && peers(p, q) ==> (#[trigger] start[q.scan_index()]).conflicts(
                        choice.value,
                    ) > 0,
                swept(start, self.cell_checkers@, p, choice.value, false, 9, 9, cell_idx as int),
        {
            let box_pos = box_positions[cell_idx];
            let (box_pos_row_idx, box_pos_col_idx) = box_pos.as_usize_pair();
            let ghost before = self.cell_checkers@;
            proof {
                lemma_box_step(sudoku_box, p, cell_idx as int);
            }
            if box_pos_row_idx == choice_row_idx {
            } else if box_pos_col_idx == choice_col_idx {
            } else {
                assert(box_pos.scan_index() == box_pos_row_idx * 9 + box_pos_col_idx);
                assert(before[box_pos.scan_index()]@ == start[box_pos.scan_index()]@);
                self.cell_checkers[box_pos_row_idx * 9 + box_pos_col_idx].remove_conflict(
                    choice.value,
                );
            }
            proof {
                lemma_swept_step(
                    start,
                    before,
                    self.cell_checkers@,
                    p,
                    choice.value,
                    false,
                    (9, 9, cell_idx as int),
                    (9, 9, cell_idx + 1),
                    box_pos,
                    box_pos_row_idx != choice_row_idx && box_pos_col_idx != choice_col_idx,
                );
            }
        }
        proof {
            assert forall|q: SudokuPosition| q.in_grid() implies (
            #[trigger] self.cell_checkers@[q.scan_index()])@ == if peers(p, q) {
                eased(start[q.scan_index()]@, choice.value)
            } else {
                start[q.scan_index()]@
            } by {
                lemma_reached_all(p, q);
            }
        }
    }
}

} // verus!
