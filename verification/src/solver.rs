use vstd::prelude::*;
use crate::checker::grid_checker::SudokuGridConflictChecker;
use crate::choice::SudokuChoice;
use crate::position::SudokuPosition;
use crate::rules::{admits, all_valid, consistent};
use crate::search::{
    dead, distinct_positions, explored, fill_order, floor, follows, is_completion,
    is_least_completion, is_open, lemma_distinct_positions_bound, lemma_explored_push,
    lemma_explored_take, lemma_fill_order, lemma_floor_bottom, lemma_floor_pop, lemma_floor_step,
    lemma_floor_top, lemma_inconsistent, lemma_least_completion_unique, lemma_prune,
    lemma_rank_lex_less, lemma_rank_push, lex_less, occupies, pow10, rank,
};
use crate::value::SudokuValue;

verus! {

/// Why a puzzle was refused before any search.
#[derive(Clone, Copy, Debug, PartialEq, Eq, Structural)]
pub enum SolveError {
    /// The given choices contradict each other: two of them put the same
    /// value into one row, column or box, or together they leave some cell
    /// of the grid without a value to take.
    InconsistentChoices,
}

/// Whether a step of the search found a new choice to make. The caller
/// must look at it.
#[must_use]
#[derive(Clone, Copy)]
pub enum SolverProgressStatus {
    SolverCouldNotMakeProgress,
    SolverMadeProgress,
}

impl SolverProgressStatus {
    pub fn did_make_progress(self) -> (progress: bool)
        ensures
            progress == (self is SolverMadeProgress),
    {
        match self {
            SolverProgressStatus::SolverCouldNotMakeProgress => false,
            SolverProgressStatus::SolverMadeProgress => true,
        }
    }
}

/// After `placed`, no value from `low` up to but not including `high` is
/// admitted at `position`.
pub open spec fn rejected_between(
    placed: Seq<SudokuChoice>,
    position: SudokuPosition,
    low: int,
    high: int,
) -> bool {
    forall|value: SudokuValue|
        value.in_range() && low <= value.number() < high ==> !#[trigger] admits(
            placed,
            SudokuChoice { position, value },
        )
}

/// The search has tried every value above the one that `stack` holds at
/// place `at`, with the choices before that place standing, and none was
/// admitted.
pub open spec fn exhausted(given: Seq<SudokuChoice>, stack: Seq<SudokuChoice>, at: int) -> bool {
    rejected_between(given + stack.take(at), stack[at].position, stack[at].value.number() + 1, 10)
}

/// What `solve` may return for the given choices. An error says that the
/// given choices are not consistent, and is owed then. Otherwise the answer
/// is the completion that comes first when the open cells are filled left to
/// right, top to bottom, each with the least value that leads to a solved
/// grid; or nothing, where no completion exists.
pub open spec fn solve_outcome(
    given: Seq<SudokuChoice>,
    result: Result<Option<Vec<SudokuChoice>>, SolveError>,
) -> bool {
    match result {
        Err(_) => !consistent(given),
        Ok(None) => consistent(given) && forall|filled: Seq<SudokuChoice>|
            !#[trigger] is_completion(given, filled),
        Ok(Some(filled)) => consistent(given) && is_least_completion(given, filled@),
    }
}

/// The same result with the solution as a sequence.
pub open spec fn outcome_view(result: Result<Option<Vec<SudokuChoice>>, SolveError>) -> Result<
    Option<Seq<SudokuChoice>>,
    SolveError,
> {
    match result {
        Err(error) => Err(error),
        Ok(None) => Ok(None),
        Ok(Some(filled)) => Ok(Some(filled@)),
    }
}

/// The given choices decide the outcome: two results that `solve` may
/// return for the same given choices are the same.
pub proof fn lemma_solve_deterministic(
    given: Seq<SudokuChoice>,
    first: Result<Option<Vec<SudokuChoice>>, SolveError>,
    second: Result<Option<Vec<SudokuChoice>>, SolveError>,
)
    requires
        solve_outcome(given, first),
        solve_outcome(given, second),
    ensures
        outcome_view(first) == outcome_view(second),
{
    match (first, second) {
        (Ok(Some(a)), Ok(Some(b))) => {
            lemma_least_completion_unique(given, a@, b@);
        },
        (Ok(Some(a)), Ok(None)) => {
            assert(is_completion(given, a@));
        },
        (Ok(None), Ok(Some(b))) => {
            assert(is_completion(given, b@));
        },
        _ => {},
    }
}

/// A backtracking search for a solved grid.
pub struct SudokuSolver {
    // The choices of the search, oldest first. The given choices are not
    // among them.
    choices: Vec<SudokuChoice>,
    // The cells that the search fills, in the order in which it fills them.
    fill_order: Vec<SudokuPosition>,
    // The conflicts that the given choices and the choices of the search make.
    grid_checker: SudokuGridConflictChecker,
    given: Ghost<Seq<SudokuChoice>>,
}

impl SudokuSolver {
    /// The tracker holds the given choices and then the choices of the
    /// search; the search has filled the first open cells in order; and no
    /// completion lies before the stack of its choices.
    spec fn wf(&self) -> bool {
        &&& self.grid_checker.wf()
        &&& self.grid_checker@ == self.given@ + self.choices@
        &&& self.fill_order@ == fill_order(self.given@)
        &&& follows(self.given@, self.choices@)
        &&& self.given@.len() <= 81
        &&& explored(self.given@, self.choices@)
    }

    /// The choices that stand: the given ones, then those of the search.
    spec fn placed(&self) -> Seq<SudokuChoice> {
        self.given@ + self.choices@
    }

    /// The given choices and the choices of the search lie in the grid and
    /// hold digits, and the search has at most 81 cells to fill.
    proof fn lemma_given_valid(&self)
        requires
            self.wf(),
        ensures
            all_valid(self.given@),
            self.fill_order@.len() <= 81,
            forall|i: int|
                0 <= i < self.choices@.len() ==> (#[trigger] self.choices@[i]).value.in_range(),
    {
        lemma_fill_order(self.given@);
        assert forall|i: int| 0 <= i < self.given@.len() implies (
        #[trigger] self.given@[i]).valid() by {
            assert(self.placed()[i].valid());
        }
    }

    fn is_complete(&self) -> (complete: bool)
        ensures
            complete == (self.choices@.len() == self.fill_order@.len()),
    {
        self.choices.len() == self.fill_order.len()
    }

    fn next_position_to_fill(&self) -> (position: SudokuPosition)
        requires
            self.choices@.len() < self.fill_order@.len(),
        ensures
            position == self.fill_order@[self.choices@.len() as int],
    {
        self.fill_order[self.choices.len()]
    }

    /// Tries the values from `start_value` up at `position`, the next open
    /// cell, and keeps the first one that the tracker admits.
    fn try_to_extend_solution(
        &mut self,
        start_value: SudokuValue,
        position: SudokuPosition,
    ) -> (status: SolverProgressStatus)
        requires
            old(self).wf(),
            old(self).choices@.len() < old(self).fill_order@.len(),
            position == old(self).fill_order@[old(self).choices@.len() as int],
            floor(old(self).given@, old(self).choices@, start_value.number()),
        ensures
            final(self).wf(),
            final(self).given@ == old(self).given@,
            status is SolverMadeProgress ==> {
                let choice = final(self).choices@.last();
                &&& final(self).choices@ == old(self).choices@.push(choice)
                &&& choice.position == position
                &&& choice.value.number() >= start_value.number()
                &&& admits(old(self).placed(), choice)
                &&& rejected_between(
                    old(self).placed(),
                    position,
                    start_value.number(),
                    choice.value.number(),
                )
            },
            status is SolverCouldNotMakeProgress ==> {
                &&& final(self).choices@ == old(self).choices@
                &&& rejected_between(old(self).placed(), position, start_value.number(), 10)
                &&& dead(old(self).given@, old(self).choices@)
            },
    {
        let mut value = start_value;
        proof {
            use_type_invariant(&start_value);
            self.lemma_given_valid();
        }
        loop
            invariant
                self.wf(),
                self.given@ == old(self).given@,
                self.choices@ == old(self).choices@,
                self.fill_order@ == old(self).fill_order@,
                self.choices@.len() < self.fill_order@.len() <= 81,
                all_valid(self.given@),
                position == self.fill_order@[self.choices@.len() as int],
                value.in_range(),
                value.number() >= start_value.number(),
                floor(self.given@, self.choices@, value.number()),
                rejected_between(self.placed(), position, start_value.number(), value.number()),
            decreases 9 - value.number(),
        {
            let choice = SudokuChoice::new(position, value);
            if self.grid_checker.add_choice(choice).did_add() {
                self.choices.push(choice);
                proof {
                    assert(self.placed() =~= old(self).placed().push(choice));
                    lemma_explored_push(self.given@, old(self).choices@, choice);
                }
                return SolverProgressStatus::SolverMadeProgress;
            }
            proof {
                lemma_prune(self.given@, self.choices@, choice);
                lemma_floor_step(self.given@, self.choices@, choice);
            }

            value = match value.next() {
                None => {
                    proof {
                        lemma_floor_top(self.given@, self.choices@);
                    }
                    return SolverProgressStatus::SolverCouldNotMakeProgress;
                },
                Some(new_value) => new_value,
            };
        }
    }

    /// Undoes choices from the top of the stack until one of them can be
    /// replaced by a greater value, and replaces it by the least such value.
    fn backtrack(&mut self) -> (status: SolverProgressStatus)
        requires
            old(self).wf(),
            dead(old(self).given@, old(self).choices@),
        ensures
            final(self).wf(),
            final(self).given@ == old(self).given@,
            status is SolverMadeProgress ==> {
                let at = final(self).choices@.len() - 1;
                let choice = final(self).choices@.last();
                &&& 0 <= at < old(self).choices@.len()
                &&& final(self).choices@ == old(self).choices@.take(at).push(choice)
                &&& choice.position == old(self).choices@[at].position
                &&& choice.value.number() > old(self).choices@[at].value.number()
                &&& admits(old(self).given@ + old(self).choices@.take(at), choice)
                &&& rejected_between(
                    old(self).given@ + old(self).choices@.take(at),
                    choice.position,
                    old(self).choices@[at].value.number() + 1,
                    choice.value.number(),
                )
                &&& forall|later: int|
                    at < later < old(self).choices@.len() ==> #[trigger] exhausted(
                        old(self).given@,
                        old(self).choices@,
                        later,
                    )
                &&& lex_less(old(self).choices@, final(self).choices@)
            },
            status is SolverCouldNotMakeProgress ==> {
                &&& final(self).choices@.len() == 0
                &&& forall|at: int|
                    0 <= at < old(self).choices@.len() ==> #[trigger] exhausted(
                        old(self).given@,
                        old(self).choices@,
                        at,
                    )
                &&& forall|filled: Seq<SudokuChoice>|
                    !#[trigger] is_completion(old(self).given@, filled)
            },
    {
        loop
            invariant
                self.wf(),
                self.given@ == old(self).given@,
                self.choices@.len() <= old(self).choices@.len(),
                self.choices@ == old(self).choices@.take(self.choices@.len() as int),
                follows(old(self).given@, old(self).choices@),
                dead(self.given@, self.choices@),
                forall|later: int|
                    self.choices@.len() <= later < old(self).choices@.len()
                        ==> #[trigger] exhausted(old(self).given@, old(self).choices@, later),
            decreases self.choices@.len(),
        {
            let ghost stack = self.choices@;
            proof {
                self.lemma_given_valid();
            }
            let prev_choice = match self.choices.pop() {
                None => {
                    proof {
                        assert forall|filled: Seq<SudokuChoice>|
                            !#[trigger] is_completion(old(self).given@, filled) by {
                            if is_completion(old(self).given@, filled) {
                                assert(filled.take(0) =~= stack);
                            }
                        }
                    }
                    return SolverProgressStatus::SolverCouldNotMakeProgress;
                },
                Some(prev_choice) => prev_choice,
            };
            let ghost at = self.choices@.len() as int;
            proof {
                assert(self.choices@ =~= stack.drop_last());
                assert(self.choices@ =~= old(self).choices@.take(at));
                assert(prev_choice == old(self).choices@[at]);
                assert((self.given@ + stack).drop_last() =~= self.given@ + self.choices@);
            }

            self.grid_checker.remove_choice(prev_choice);
            proof {
                lemma_explored_take(self.given@, stack, at);
                assert(stack.take(at) =~= self.choices@);
                lemma_floor_pop(self.given@, stack);
            }

            let next_value_to_try = match prev_choice.value.next() {
                None => {
                    proof {
                        lemma_floor_top(self.given@, self.choices@);
                    }
                    continue ;
                },
                Some(next_value_to_try) => next_value_to_try,
            };

            if self.try_to_extend_solution(
                next_value_to_try,
                prev_choice.position,
            ).did_make_progress() {
                proof {
                    let choice = self.choices@.last();
                    assert(self.choices@.take(at) =~= old(self).choices@.take(at));
                    assert(lex_less(old(self).choices@, self.choices@));
                }
                return SolverProgressStatus::SolverMadeProgress;
            }
        }
    }

    /// Solves the puzzle that the given choices pose. The given choices sit
    /// in different cells.
    ///
    /// The cells that they leave open are filled in the order of the scan,
    /// left to right, top to bottom, each with the least value that works.
    /// The result holds one choice for each open cell, in that order, or
    /// nothing where the puzzle has no solution. Given choices that
    /// contradict each other are an error, found before the search begins.
    pub fn solve(given_choices: &[SudokuChoice]) -> (result: Result<
        Option<Vec<SudokuChoice>>,
        SolveError,
    >)
        requires
            distinct_positions(given_choices@),
        ensures
            solve_outcome(given_choices@, result),
    {
        let ghost given = given_choices@;
        let all = SudokuPosition::all();
        let mut fill_order: Vec<SudokuPosition> = Vec::new();
        for i in 0..all.len()
            invariant
                given == given_choices@,
                all@ == SudokuPosition::spec_all(),
                fill_order@ == all@.take(i as int).filter(is_open(given)),
        {
            proof {
                reveal(Seq::filter);
                assert(all@.take(i + 1).drop_last() =~= all@.take(i as int));
            }
            if !Self::is_given(given_choices, all[i]) {
                fill_order.push(all[i]);
            }
        }
        assert(all@.take(all@.len() as int) =~= all@);

        let mut grid_checker = SudokuGridConflictChecker::new();
        assert(given.take(0) =~= grid_checker@);
        for i in 0..given_choices.len()
            invariant
                given == given_choices@,
                distinct_positions(given),
                grid_checker.wf(),
                grid_checker@ == given.take(i as int),
        {
            let given_choice = given_choices[i];
            proof {
                use_type_invariant(&given_choice.position);
                use_type_invariant(&given_choice.value);
                lemma_distinct_positions_bound(given.take(i as int));
            }
            if !grid_checker.add_choice(given_choice).did_add() {
                proof {
                    lemma_inconsistent(given, i as int);
                }
                return Err(SolveError::InconsistentChoices);
            }
            assert(given.take(i as int).push(given_choice) =~= given.take(i + 1));
        }
        proof {
            assert(given.take(given.len() as int) =~= given);
            grid_checker.lemma_consistent();
            lemma_distinct_positions_bound(given);
        }

        let solver = SudokuSolver {
            choices: Vec::new(),
            grid_checker,
            fill_order,
            given: Ghost(given),
        };
        assert(given + solver.choices@ =~= given);
        Ok(solver.run())
    }

    /// Whether the given choices sit in different cells, as `solve` asks.
    pub fn positions_are_distinct(given_choices: &[SudokuChoice]) -> (distinct: bool)
        ensures
            distinct == distinct_positions(given_choices@),
    {
        for j in 0..given_choices.len()
            invariant
                forall|a: int, b: int|
                    0 <= a < b < j ==> (#[trigger] given_choices@[a]).position != (
                    #[trigger] given_choices@[b]).position,
        {
            for i in 0..j
                invariant
                    j < given_choices@.len(),
                    forall|a: int|
                        0 <= a < i ==> (#[trigger] given_choices@[a]).position
                            != given_choices@[j as int].position,
            {
                if given_choices[i].position == given_choices[j].position {
                    return false;
                }
            }
        }
        true
    }

    /// Whether one of the given choices sits at `position`.
    fn is_given(given_choices: &[SudokuChoice], position: SudokuPosition) -> (given: bool)
        ensures
            given == occupies(given_choices@, position),
    {
        for i in 0..given_choices.len()
            invariant
                forall|j: int| 0 <= j < i ==> (#[trigger] given_choices@[j]).position != position,
        {
            if given_choices[i].position == position {
                return true;
            }
        }
        false
    }

    /// Runs the search to its end.
    fn run(self) -> (result: Option<Vec<SudokuChoice>>)
        requires
            self.wf(),
        ensures
            result matches Some(filled) ==> is_least_completion(self.given@, filled@),
            result is None ==> forall|filled: Seq<SudokuChoice>|
                !#[trigger] is_completion(self.given@, filled),
    {
        let mut solver = self;
        let ghost given = solver.given@;
        let ghost depth = fill_order(given).len();
        loop
            invariant
                solver.wf(),
                solver.given@ == given,
                self.given@ == given,
                depth == fill_order(given).len(),
            decreases pow10(depth) - rank(solver.choices@, depth),
        {
            let ghost before = solver.choices@;
            proof {
                solver.lemma_given_valid();
            }
            if solver.is_complete() {
                proof {
                    solver.grid_checker.lemma_consistent();
                }
                return Some(solver.choices);
            }
            let next_position_to_fill = solver.next_position_to_fill();
            proof {
                lemma_floor_bottom(given, before);
            }
            if solver.try_to_extend_solution(
                SudokuValue::first(),
                next_position_to_fill,
            ).did_make_progress() {
                proof {
                    lemma_rank_push(before, depth, solver.choices@.last());
                }
                continue ;
            }
            if !solver.backtrack().did_make_progress() {
                return None;
            }
            proof {
                solver.lemma_given_valid();
                lemma_rank_lex_less(before, solver.choices@, depth);
            }
        }
    }
}

} // verus!
