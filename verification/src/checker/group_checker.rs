use vstd::prelude::*;
use crate::value::SudokuValue;

verus! {

/// How many entries of `conflicts` are zero.
pub open spec fn count_free(conflicts: Seq<nat>) -> nat
    decreases conflicts.len(),
{
    if conflicts.len() == 0 {
        0
    } else {
        count_free(conflicts.drop_last()) + if conflicts.last() == 0 {
            1nat
        } else {
            0nat
        }
    }
}

/// No more entries are zero than there are entries.
pub proof fn lemma_count_free_bound(conflicts: Seq<nat>)
    ensures
        count_free(conflicts) <= conflicts.len(),
    decreases conflicts.len(),
{
    if conflicts.len() > 0 {
        lemma_count_free_bound(conflicts.drop_last());
    }
}

/// Some entry is zero exactly when the count of zero entries is not zero.
pub proof fn lemma_count_free_positive(conflicts: Seq<nat>)
    ensures
        count_free(conflicts) > 0 <==> exists|i: int|
            0 <= i < conflicts.len() && #[trigger] conflicts[i] == 0,
    decreases conflicts.len(),
{
    if conflicts.len() > 0 {
        let front = conflicts.drop_last();
        lemma_count_free_positive(front);
        if count_free(conflicts) > 0 {
            if conflicts.last() == 0 {
                assert(conflicts[conflicts.len() - 1] == 0);
            } else {
                let i = choose|i: int| 0 <= i < front.len() && #[trigger] front[i] == 0;
                assert(conflicts[i] == 0);
            }
        }
        if exists|i: int| 0 <= i < conflicts.len() && #[trigger] conflicts[i] == 0 {
            let i = choose|i: int| 0 <= i < conflicts.len() && #[trigger] conflicts[i] == 0;
            if i < front.len() {
                assert(front[i] == 0);
            }
        }
    }
}

/// Writing one entry changes the count of zero entries by what that entry
/// alone contributes.
pub proof fn lemma_count_free_update(conflicts: Seq<nat>, i: int, count: nat)
    requires
        0 <= i < conflicts.len(),
    ensures
        count_free(conflicts.update(i, count)) + (if conflicts[i] == 0 {
            1nat
        } else {
            0nat
        }) == count_free(conflicts) + (if count == 0 {
            1nat
        } else {
            0nat
        }),
    decreases conflicts.len(),
{
    let front = conflicts.drop_last();
    let written = conflicts.update(i, count);
    if i == conflicts.len() - 1 {
        assert(written.drop_last() =~= front);
    } else {
        lemma_count_free_update(front, i, count);
        assert(written.drop_last() =~= front.update(i, count));
    }
}

/// The tally that one cell keeps of the placements around it: for each
/// value, how many placed cells in the cell's row, column or box hold that
/// value and so forbid it here.
pub struct SudokuGroupConflictChecker {
    // At index `i`, the number of placed cells that forbid value `i + 1` here.
    pub(crate) value_conflicts: [u8; 9],
    // The number of values that nothing forbids here.
    pub(crate) number_free_values: u8,
}

impl Clone for SudokuGroupConflictChecker {
    /// A checker with the same tally.
    fn clone(&self) -> (copy: SudokuGroupConflictChecker)
        ensures
            copy == *self,
    {
        SudokuGroupConflictChecker {
            value_conflicts: self.value_conflicts,
            number_free_values: self.number_free_values,
        }
    }
}

impl View for SudokuGroupConflictChecker {
    type V = Seq<nat>;

    /// For each value, by its index, the number of conflicts recorded against it.
    open(crate) spec fn view(&self) -> Seq<nat> {
        Seq::new(9, |i: int| self.value_conflicts[i] as nat)
    }
}

impl SudokuGroupConflictChecker {
    /// The stored number of free values is the number of values without a
    /// conflict.
    pub open(crate) spec fn wf(&self) -> bool {
        self.number_free_values == count_free(self@)
    }

    /// The number of conflicts recorded against `val`.
    pub open spec fn conflicts(&self, val: SudokuValue) -> nat {
        self@[val.index()]
    }

    /// The number of values that the cell may still take.
    pub open spec fn free_values(&self) -> nat {
        count_free(self@)
    }

    /// What `can_restrict_here` answers.
    pub open spec fn spec_can_restrict_here(&self, val: SudokuValue) -> bool {
        self.conflicts(val) > 0 || self.free_values() > 1
    }

    /// What `can_store_here` answers.
    pub open spec fn spec_can_store_here(&self, val: SudokuValue) -> bool {
        self.conflicts(val) == 0
    }

    /// The view has one entry for each of the nine values.
    pub proof fn lemma_view_len(&self)
        ensures
            self@.len() == 9,
            self.free_values() <= 9,
    {
        lemma_count_free_bound(self@);
    }

    /// A checker without conflicts: the cell can take any of the nine values.
    pub fn new() -> (checker: SudokuGroupConflictChecker)
        ensures
            checker.wf(),
            checker@ == Seq::new(9, |i: int| 0nat),
            checker.free_values() == 9,
    {
        let checker = SudokuGroupConflictChecker { value_conflicts: [0; 9], number_free_values: 9 };
        proof {
            assert(checker@ =~= Seq::new(9, |i: int| 0nat));
            reveal_with_fuel(count_free, 10);
        }
        checker
    }

    /// Records that one more placed cell holds `val` in this cell's row,
    /// column or box. The first conflict against a value takes one from the
    /// number of free values.
    pub fn add_conflict(&mut self, val: SudokuValue)
        requires
            old(self).wf(),
            old(self).conflicts(val) < u8::MAX,
        ensures
            final(self).wf(),
            final(self)@ == old(self)@.update(val.index(), old(self).conflicts(val) + 1),
            final(self).free_values() == old(self).free_values() - (if old(self).conflicts(val)
                == 0 {
                1nat
            } else {
                0nat
            }),
    {
        let idx = val.as_usize_idx();
        proof {
            lemma_count_free_positive(self@);
            lemma_count_free_update(self@, idx as int, self@[idx as int] + 1);
        }
        if self.value_conflicts[idx] == 0 {
            assert(self@[idx as int] == 0);
            self.number_free_values -= 1;
        }
        self.value_conflicts[idx] += 1;
        assert(self@ =~= old(self)@.update(idx as int, old(self)@[idx as int] + 1));
    }

    /// Whether the cell keeps a value to take if a cell in its row, column
    /// or box is given `val`: it does if `val` is forbidden here already, or
    /// if more than one value is free.
    pub fn can_restrict_here(&self, val: SudokuValue) -> (can_restrict: bool)
        requires
            self.wf(),
            self.free_values() >= 1,
        ensures
            can_restrict == self.spec_can_restrict_here(val),
    {
        if self.value_conflicts[val.as_usize_idx()] > 0 {
            true
        } else if self.number_free_values > 1 {
            true
        } else {
            false
        }
    }

    /// Another name for `can_restrict_here`.
    pub fn can_accomodate_conflict(&self, val: SudokuValue) -> (can_accomodate: bool)
        requires
            self.wf(),
            self.free_values() >= 1,
        ensures
            can_accomodate == self.spec_can_restrict_here(val),
    {
        self.can_restrict_here(val)
    }

    /// Whether nothing forbids `val` in this cell. That `val` is the last
    /// free value does not count against it.
    pub fn can_store_here(&self, val: SudokuValue) -> (can_store: bool)
        ensures
            can_store == self.spec_can_store_here(val),
    {
        self.value_conflicts[val.as_usize_idx()] == 0
    }

    /// Takes back one conflict against `val`. When the last one goes, the
    /// value is free again.
    pub fn remove_conflict(&mut self, val: SudokuValue)
        requires
            old(self).wf(),
            old(self).conflicts(val) > 0,
        ensures
            final(self).wf(),
            final(self)@ == old(self)@.update(val.index(), (old(self).conflicts(val) - 1) as nat),
            final(self).free_values() == old(self).free_values() + (if old(self).conflicts(val)
                == 1 {
                1nat
            } else {
                0nat
            }),
    {
        let idx = val.as_usize_idx();
        proof {
            lemma_count_free_bound(self@);
            lemma_count_free_update(self@, idx as int, (self@[idx as int] - 1) as nat);
        }
        self.value_conflicts[idx] -= 1;
        if self.value_conflicts[idx] == 0 {
            self.number_free_values += 1;
        }
        assert(self@ =~= old(self)@.update(idx as int, (old(self)@[idx as int] - 1) as nat));
    }

    /// Whether every value is forbidden here.
    pub fn is_unsatisfiable(&self) -> (unsatisfiable: bool)
        requires
            self.wf(),
        ensures
            unsatisfiable == (self.free_values() == 0),
    {
        self.number_free_values == 0
    }
}

} // verus!
