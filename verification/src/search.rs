use vstd::prelude::*;
use vstd::set_lib::{lemma_int_range, lemma_len_subset, set_int_range};
use crate::choice::SudokuChoice;
use crate::position::SudokuPosition;
use crate::rules::{
    admits, all_valid, clash, clash_free, consistent, forbids, has_candidate,
    lemma_candidate_prefix, peers, rules_out,
};

verus! {

/// One of the given choices sits at `position`.
pub open spec fn occupies(given: Seq<SudokuChoice>, position: SudokuPosition) -> bool {
    exists|i: int| 0 <= i < given.len() && (#[trigger] given[i]).position == position
}

/// No two of the given choices sit at the same position.
pub open spec fn distinct_positions(given: Seq<SudokuChoice>) -> bool {
    forall|i: int, j: int|
        0 <= i < j < given.len() ==> (#[trigger] given[i]).position != (
        #[trigger] given[j]).position
}

/// The test for a cell that no given choice sits at.
pub open spec fn is_open(given: Seq<SudokuChoice>) -> spec_fn(SudokuPosition) -> bool {
    |position: SudokuPosition| !occupies(given, position)
}

/// The cells that the given choices leave open, in the order of the scan:
/// left to right, top to bottom. The search fills them in this order.
pub open spec fn fill_order(given: Seq<SudokuChoice>) -> Seq<SudokuPosition> {
    SudokuPosition::spec_all().filter(is_open(given))
}

/// `stack` fills the first open cells in their order, each with a digit.
pub open spec fn follows(given: Seq<SudokuChoice>, stack: Seq<SudokuChoice>) -> bool {
    &&& stack.len() <= fill_order(given).len()
    &&& forall|i: int|
        0 <= i < stack.len() ==> (#[trigger] stack[i]).position == fill_order(given)[i]
            && stack[i].value.in_range()
}

/// `filled` completes the given choices to a solved grid: it fills every
/// open cell, in order, and no two choices of the whole grid clash.
pub open spec fn is_completion(given: Seq<SudokuChoice>, filled: Seq<SudokuChoice>) -> bool {
    &&& follows(given, filled)
    &&& filled.len() == fill_order(given).len()
    &&& clash_free(given + filled)
}

/// `a` and `b` agree up to some cell, where `a` holds the smaller value:
/// a search that tries values in rising order comes to `a` first.
pub open spec fn lex_less(a: Seq<SudokuChoice>, b: Seq<SudokuChoice>) -> bool {
    exists|j: int|
        0 <= j < a.len() && j < b.len() && #[trigger] a.take(j) == b.take(j) && a[j].value.number()
            < b[j].value.number()
}

/// `filled` is the completion that the search order puts first.
pub open spec fn is_least_completion(given: Seq<SudokuChoice>, filled: Seq<SudokuChoice>) -> bool {
    &&& is_completion(given, filled)
    &&& forall|other: Seq<SudokuChoice>| #[trigger]
        is_completion(given, other) ==> !lex_less(other, filled)
}

/// No completion comes before `stack` in the search order: what lies
/// before it has been searched.
pub open spec fn explored(given: Seq<SudokuChoice>, stack: Seq<SudokuChoice>) -> bool {
    forall|filled: Seq<SudokuChoice>| #[trigger]
        is_completion(given, filled) ==> !lex_less(filled, stack)
}

/// No completion begins with `stack`.
pub open spec fn dead(given: Seq<SudokuChoice>, stack: Seq<SudokuChoice>) -> bool {
    forall|filled: Seq<SudokuChoice>| #[trigger]
        is_completion(given, filled) ==> filled.take(stack.len() as int) != stack
}

/// Every completion that begins with `stack` goes on with a value of at
/// least `low`.
pub open spec fn floor(given: Seq<SudokuChoice>, stack: Seq<SudokuChoice>, low: int) -> bool {
    forall|filled: Seq<SudokuChoice>| #[trigger]
        is_completion(given, filled) && filled.take(stack.len() as int) == stack
            ==> filled[stack.len() as int].value.number() >= low
}

/// What the fill order holds: open cells of the grid only, and every one
/// of them.
pub proof fn lemma_fill_order(given: Seq<SudokuChoice>)
    ensures
        fill_order(given).len() <= 81,
        forall|k: int|
            0 <= k < fill_order(given).len() ==> (#[trigger] fill_order(given)[k]).in_grid()
                && !occupies(given, fill_order(given)[k]),
        forall|position: SudokuPosition|
            position.in_grid() && !occupies(given, position) ==> #[trigger] fill_order(
                given,
            ).contains(position),
{
    let open = is_open(given);
    let all = SudokuPosition::spec_all();
    lemma_filter_source(all, open);
    all.lemma_filter_len(open);
    assert forall|k: int| 0 <= k < fill_order(given).len() implies (#[trigger] fill_order(
        given,
    )[k]).in_grid() && !occupies(given, fill_order(given)[k]) by {
        all.lemma_filter_pred(open, k);
        let j = choose|j: int| 0 <= j < all.len() && all[j] == all.filter(open)[k];
        SudokuPosition::lemma_scan_index(j);
    }
    assert forall|position: SudokuPosition|
        position.in_grid() && !occupies(given, position) implies #[trigger] fill_order(
        given,
    ).contains(position) by {
        position.lemma_at_scan_index();
        all.lemma_filter_contains(open, position.scan_index());
    }
}

/// The fill order goes forward in the scan: it names no cell twice.
pub proof fn lemma_fill_order_rising(given: Seq<SudokuChoice>)
    ensures
        forall|j: int, k: int|
            0 <= j < k < fill_order(given).len() ==> (#[trigger] fill_order(given)[j]).scan_index()
                < (#[trigger] fill_order(given)[k]).scan_index(),
{
    lemma_filter_rising(81, is_open(given));
    assert(SudokuPosition::spec_all().take(81) =~= SudokuPosition::spec_all());
}

/// What a filter keeps of the first `len` cells of the scan, it keeps in
/// the order of the scan, and all of it comes before step `len`.
pub proof fn lemma_filter_rising(len: int, keep: spec_fn(SudokuPosition) -> bool)
    requires
        0 <= len <= 81,
    ensures
        forall|k: int|
            0 <= k < SudokuPosition::spec_all().take(len).filter(keep).len() ==> (
            #[trigger] SudokuPosition::spec_all().take(len).filter(keep)[k]).scan_index() < len,
        forall|j: int, k: int|
            0 <= j < k < SudokuPosition::spec_all().take(len).filter(keep).len() ==> (
            #[trigger] SudokuPosition::spec_all().take(len).filter(keep)[j]).scan_index() < (
            #[trigger] SudokuPosition::spec_all().take(len).filter(keep)[k]).scan_index(),
    decreases len,
{
    reveal(Seq::filter);
    let all = SudokuPosition::spec_all();
    let now = all.take(len);
    if len > 0 {
        let front = all.take(len - 1);
        lemma_filter_rising(len - 1, keep);
        assert(now.drop_last() =~= front);
        assert(now.last() == all[len - 1]);
        SudokuPosition::lemma_scan_index(len - 1);
        let kept = now.filter(keep);
        let kept_front = front.filter(keep);
        assert(kept == if keep(now.last()) {
            kept_front.push(now.last())
        } else {
            kept_front
        });
        assert forall|k: int| 0 <= k < kept.len() implies (#[trigger] kept[k]).scan_index()
            < len by {
            if k < kept_front.len() {
                assert(kept[k] == kept_front[k]);
            }
        }
        assert forall|j: int, k: int| 0 <= j < k < kept.len() implies (
        #[trigger] kept[j]).scan_index() < (#[trigger] kept[k]).scan_index() by {
            assert(kept[j] == kept_front[j]);
            if k < kept_front.len() {
                assert(kept[k] == kept_front[k]);
            }
        }
    } else {
        assert(now.filter(keep).len() == 0);
    }
}

/// What a filter keeps, it has from the sequence that it filters.
pub proof fn lemma_filter_source<A>(source: Seq<A>, keep: spec_fn(A) -> bool)
    ensures
        forall|k: int|
            0 <= k < source.filter(keep).len() ==> exists|j: int|
                0 <= j < source.len() && source[j] == #[trigger] source.filter(keep)[k],
    decreases source.len(),
{
    reveal(Seq::filter);
    if source.len() > 0 {
        let front = source.drop_last();
        lemma_filter_source(front, keep);
        assert forall|k: int| 0 <= k < source.filter(keep).len() implies exists|j: int|
            0 <= j < source.len() && source[j] == #[trigger] source.filter(keep)[k] by {
            if k < front.filter(keep).len() {
                let j = choose|j: int| 0 <= j < front.len() && front[j] == front.filter(keep)[k];
                assert(source[j] == source.filter(keep)[k]);
            } else {
                assert(source[source.len() - 1] == source.filter(keep)[k]);
            }
        }
    }
}

/// Choices in different cells of the grid are at most 81.
pub proof fn lemma_distinct_positions_bound(given: Seq<SudokuChoice>)
    requires
        all_valid(given),
        distinct_positions(given),
    ensures
        given.len() <= 81,
{
    let indices = Seq::new(given.len(), |i: int| given[i].position.scan_index());
    assert forall|i: int, j: int|
        0 <= i < indices.len() && 0 <= j < indices.len() && i != j implies indices[i]
        != indices[j] by {
        assert(given[i].valid() && given[j].valid());
        if i < j {
            assert(given[i].position != given[j].position);
        } else {
            assert(given[j].position != given[i].position);
        }
    }
    indices.unique_seq_to_set();
    lemma_int_range(0, 81);
    assert forall|index: int| indices.to_set().contains(index) implies set_int_range(
        0,
        81,
    ).contains(index) by {
        let i = choose|i: int| 0 <= i < indices.len() && indices[i] == index;
        assert(given[i].valid());
    }
    lemma_len_subset(indices.to_set(), set_int_range(0, 81));
}

/// A solved grid leaves no cell out: each cell of the grid holds a digit,
/// given or filled in.
pub proof fn lemma_covered(
    given: Seq<SudokuChoice>,
    filled: Seq<SudokuChoice>,
    position: SudokuPosition,
) -> (m: int)
    requires
        all_valid(given),
        follows(given, filled),
        filled.len() == fill_order(given).len(),
        position.in_grid(),
    ensures
        0 <= m < (given + filled).len(),
        (given + filled)[m].position == position,
        (given + filled)[m].value.in_range(),
{
    if occupies(given, position) {
        let i = choose|i: int| 0 <= i < given.len() && (#[trigger] given[i]).position == position;
        assert(given[i].valid());
        i
    } else {
        lemma_fill_order(given);
        assert(fill_order(given).contains(position));
        let k = choose|k: int| 0 <= k < fill_order(given).len() && fill_order(given)[k] == position;
        assert(filled[k].position == position);
        given.len() + k
    }
}

/// A choice that the placed choices do not admit leads to no solved grid:
/// no completion begins with the stack and goes on with that choice.
pub proof fn lemma_prune(given: Seq<SudokuChoice>, stack: Seq<SudokuChoice>, choice: SudokuChoice)
    requires
        all_valid(given),
        follows(given, stack),
        stack.len() < fill_order(given).len(),
        choice.position == fill_order(given)[stack.len() as int],
        choice.value.in_range(),
        !admits(given + stack, choice),
    ensures
        dead(given, stack.push(choice)),
{
    let placed = given + stack;
    let depth = placed.len() as int;
    let p = choice.position;
    let v = choice.value;
    assert forall|filled: Seq<SudokuChoice>| #[trigger]
        is_completion(given, filled) implies filled.take(stack.push(choice).len() as int)
        != stack.push(choice) by {
        let begin = filled.take(stack.len() as int + 1);
        if begin == stack.push(choice) {
            let full = given + filled;
            assert forall|i: int| 0 <= i <= depth implies full[i] == placed.push(choice)[i] by {
                if i >= given.len() {
                    assert(begin[i - given.len()] == stack.push(choice)[i - given.len()]);
                }
            }
            if forbids(placed, p, v) {
                let i = choose|i: int|
                    0 <= i < placed.len() && rules_out(#[trigger] placed[i], p, v);
                assert(placed[i] == placed.push(choice)[i]);
                assert(clash(full[i], full[depth]));
            } else {
                let q = choose|q: SudokuPosition|
                    q.in_grid() && #[trigger] peers(p, q) && !has_candidate(placed.push(choice), q);
                let m = lemma_covered(given, filled, q);
                let w = full[m].value;
                assert(forbids(placed.push(choice), q, w));
                let i = choose|i: int|
                    0 <= i < placed.push(choice).len() && rules_out(
                        #[trigger] placed.push(choice)[i],
                        q,
                        w,
                    );
                assert(full[i] == placed.push(choice)[i]);
                if i < m {
                    assert(clash(full[i], full[m]));
                } else {
                    assert(clash(full[m], full[i]));
                }
            }
        }
    }
}

/// The search may step on to a choice once no completion goes on from the
/// stack with a smaller value.
pub proof fn lemma_explored_push(
    given: Seq<SudokuChoice>,
    stack: Seq<SudokuChoice>,
    choice: SudokuChoice,
)
    requires
        explored(given, stack),
        floor(given, stack, choice.value.number()),
    ensures
        explored(given, stack.push(choice)),
{
    let longer = stack.push(choice);
    assert forall|filled: Seq<SudokuChoice>| #[trigger]
        is_completion(given, filled) implies !lex_less(filled, longer) by {
        if lex_less(filled, longer) {
            let j = choose|j: int|
                0 <= j < filled.len() && j < longer.len() && #[trigger] filled.take(j)
                    == longer.take(j) && filled[j].value.number() < longer[j].value.number();
            if j < stack.len() {
                assert(longer.take(j) =~= stack.take(j));
                assert(lex_less(filled, stack));
            } else {
                assert(longer.take(j) =~= stack);
            }
        }
    }
}

/// What lies before a stack lies before every stack that it begins.
pub proof fn lemma_explored_take(given: Seq<SudokuChoice>, stack: Seq<SudokuChoice>, len: int)
    requires
        explored(given, stack),
        0 <= len <= stack.len(),
    ensures
        explored(given, stack.take(len)),
{
    let shorter = stack.take(len);
    assert forall|filled: Seq<SudokuChoice>| #[trigger]
        is_completion(given, filled) implies !lex_less(filled, shorter) by {
        if lex_less(filled, shorter) {
            let j = choose|j: int|
                0 <= j < filled.len() && j < shorter.len() && #[trigger] filled.take(j)
                    == shorter.take(j) && filled[j].value.number() < shorter[j].value.number();
            assert(shorter.take(j) =~= stack.take(j));
            assert(lex_less(filled, stack));
        }
    }
}

/// Once a choice has proved dead, a completion that begins with the stack
/// must go on with a greater value.
pub proof fn lemma_floor_step(
    given: Seq<SudokuChoice>,
    stack: Seq<SudokuChoice>,
    choice: SudokuChoice,
)
    requires
        stack.len() < fill_order(given).len(),
        choice.position == fill_order(given)[stack.len() as int],
        floor(given, stack, choice.value.number()),
        dead(given, stack.push(choice)),
    ensures
        floor(given, stack, choice.value.number() + 1),
{
    assert forall|filled: Seq<SudokuChoice>| #[trigger]
        is_completion(given, filled) && filled.take(stack.len() as int)
            == stack implies filled[stack.len() as int].value.number() >= choice.value.number()
        + 1 by {
        let next = filled[stack.len() as int];
        if next.value.number() == choice.value.number() {
            assert(next == choice);
            assert(filled.take(stack.len() as int + 1) =~= filled.take(stack.len() as int).push(
                next,
            ));
            assert(filled.take(stack.push(choice).len() as int) != stack.push(choice));
        }
    }
}

/// No digit is greater than 9: a stack that must go on with more is dead.
pub proof fn lemma_floor_top(given: Seq<SudokuChoice>, stack: Seq<SudokuChoice>)
    requires
        stack.len() < fill_order(given).len(),
        floor(given, stack, 10),
    ensures
        dead(given, stack),
{
    assert forall|filled: Seq<SudokuChoice>| #[trigger]
        is_completion(given, filled) implies filled.take(stack.len() as int) != stack by {
        assert(filled[stack.len() as int].value.in_range());
    }
}

/// Every completion begins with a digit of at least 1.
pub proof fn lemma_floor_bottom(given: Seq<SudokuChoice>, stack: Seq<SudokuChoice>)
    requires
        stack.len() < fill_order(given).len(),
    ensures
        floor(given, stack, 1),
{
    assert forall|filled: Seq<SudokuChoice>| #[trigger]
        is_completion(given, filled) && filled.take(stack.len() as int)
            == stack implies filled[stack.len() as int].value.number() >= 1 by {
        assert(filled[stack.len() as int].value.in_range());
    }
}

/// When the stack is dead and what lies before it is searched, a
/// completion that begins with all but its last choice must go on with a
/// greater value than that choice holds.
pub proof fn lemma_floor_pop(given: Seq<SudokuChoice>, stack: Seq<SudokuChoice>)
    requires
        0 < stack.len() <= fill_order(given).len(),
        explored(given, stack),
        dead(given, stack),
        follows(given, stack),
    ensures
        floor(given, stack.drop_last(), stack.last().value.number() + 1),
{
    let front = stack.drop_last();
    let last = stack.last();
    assert forall|filled: Seq<SudokuChoice>| #[trigger]
        is_completion(given, filled) && filled.take(front.len() as int)
            == front implies filled[front.len() as int].value.number() >= last.value.number()
        + 1 by {
        let next = filled[front.len() as int];
        assert(stack.take(front.len() as int) =~= front);
        if next.value.number() < last.value.number() {
            assert(lex_less(filled, stack));
        } else if next.value.number() == last.value.number() {
            assert(stack[front.len() as int].position == fill_order(given)[front.len() as int]);
            assert(next == last);
            assert(filled.take(stack.len() as int) =~= front.push(next));
            assert(front.push(last) =~= stack);
        }
    }
}

/// Ten to the power `n`.
pub open spec fn pow10(n: nat) -> nat
    decreases n,
{
    if n == 0 {
        1
    } else {
        10 * pow10((n - 1) as nat)
    }
}

/// The stack read as a number of `depth` decimal digits: the value of the
/// oldest choice is the leading digit, and the cells that the stack has not
/// reached count as zeros. It grows with every step of the search.
pub open spec fn rank(stack: Seq<SudokuChoice>, depth: nat) -> nat
    decreases stack.len(),
{
    if stack.len() == 0 {
        0
    } else {
        (rank(stack.drop_last(), depth) + stack.last().value.number() * pow10(
            (depth - stack.len()) as nat,
        )) as nat
    }
}

/// A digit times a weight lies between the weight and nine times the weight.
pub proof fn lemma_digit_weight(digit: int, weight: nat)
    requires
        1 <= digit <= 9,
    ensures
        weight <= digit * weight <= 9 * weight,
        (digit + 1) * weight == digit * weight + weight,
{
    assert(weight <= digit * weight <= 9 * weight) by (nonlinear_arith)
        requires
            1 <= digit <= 9,
            weight >= 0,
    ;
    assert((digit + 1) * weight == digit * weight + weight) by (nonlinear_arith);
}

/// A stack of digits ranks below the next stack that begins as its first
/// `len` choices do: it adds less than one unit of the digit before.
pub proof fn lemma_rank_take(stack: Seq<SudokuChoice>, depth: nat, len: int)
    requires
        0 <= len <= stack.len() <= depth,
        forall|i: int| 0 <= i < stack.len() ==> (#[trigger] stack[i]).value.in_range(),
    ensures
        rank(stack.take(len), depth) <= rank(stack, depth),
        rank(stack, depth) + pow10((depth - stack.len()) as nat) <= rank(stack.take(len), depth)
            + pow10((depth - len) as nat),
    decreases stack.len() - len,
{
    if len == stack.len() {
        assert(stack.take(len) =~= stack);
    } else {
        let front = stack.drop_last();
        assert(front.take(len) =~= stack.take(len));
        lemma_rank_take(front, depth, len);
        lemma_digit_weight(stack.last().value.number(), pow10((depth - stack.len()) as nat));
        assert(pow10((depth - front.len()) as nat) == 10 * pow10((depth - stack.len()) as nat));
    }
}

/// A stack that goes one choice further ranks higher.
pub proof fn lemma_rank_push(stack: Seq<SudokuChoice>, depth: nat, choice: SudokuChoice)
    requires
        stack.len() < depth,
        choice.value.in_range(),
        forall|i: int| 0 <= i < stack.len() ==> (#[trigger] stack[i]).value.in_range(),
    ensures
        rank(stack, depth) < rank(stack.push(choice), depth) < pow10(depth),
{
    let longer = stack.push(choice);
    assert(longer.drop_last() =~= stack);
    lemma_digit_weight(choice.value.number(), pow10((depth - longer.len()) as nat));
    lemma_pow10_positive((depth - longer.len()) as nat);
    lemma_rank_take(longer, depth, 0);
    assert(longer.take(0) =~= Seq::empty());
}

/// Ten to any power is at least 1.
pub proof fn lemma_pow10_positive(n: nat)
    ensures
        pow10(n) >= 1,
    decreases n,
{
    if n > 0 {
        lemma_pow10_positive((n - 1) as nat);
    }
}

/// A stack that comes later in the search order ranks higher.
pub proof fn lemma_rank_lex_less(a: Seq<SudokuChoice>, b: Seq<SudokuChoice>, depth: nat)
    requires
        a.len() <= depth,
        b.len() <= depth,
        forall|i: int| 0 <= i < a.len() ==> (#[trigger] a[i]).value.in_range(),
        forall|i: int| 0 <= i < b.len() ==> (#[trigger] b[i]).value.in_range(),
        lex_less(a, b),
    ensures
        rank(a, depth) < rank(b, depth) < pow10(depth),
{
    let j = choose|j: int|
        0 <= j < a.len() && j < b.len() && #[trigger] a.take(j) == b.take(j) && a[j].value.number()
            < b[j].value.number();
    let weight = pow10((depth - (j + 1)) as nat);
    lemma_rank_take(a, depth, j + 1);
    lemma_rank_take(b, depth, j + 1);
    assert(a.take(j + 1).drop_last() =~= a.take(j));
    assert(b.take(j + 1).drop_last() =~= b.take(j));
    lemma_pow10_positive((depth - a.len()) as nat);
    lemma_pow10_positive((depth - b.len()) as nat);
    assert(a[j].value.number() * weight + weight <= b[j].value.number() * weight)
        by (nonlinear_arith)
        requires
            a[j].value.number() + 1 <= b[j].value.number(),
            weight >= 0,
    ;
    lemma_rank_take(b, depth, 0);
    assert(b.take(0) =~= Seq::empty());
}

/// Two sequences of the same length that are not the same part somewhere:
/// up to some place they agree, and there they differ.
pub proof fn lemma_first_difference<A>(a: Seq<A>, b: Seq<A>) -> (j: int)
    requires
        a.len() == b.len(),
        a != b,
    ensures
        0 <= j < a.len(),
        a.take(j) == b.take(j),
        a[j] != b[j],
    decreases a.len(),
{
    if a.len() == 0 {
        assert(a =~= b);
        0
    } else if a.drop_last() == b.drop_last() {
        if a.last() == b.last() {
            assert(a =~= a.drop_last().push(a.last()));
            assert(b =~= b.drop_last().push(b.last()));
        }
        assert(a.take(a.len() - 1) =~= a.drop_last());
        assert(b.take(a.len() - 1) =~= b.drop_last());
        a.len() - 1
    } else {
        let j = lemma_first_difference(a.drop_last(), b.drop_last());
        assert(a.take(j) =~= a.drop_last().take(j));
        assert(b.take(j) =~= b.drop_last().take(j));
        j
    }
}

/// The completion that the search order puts first is one and no more.
pub proof fn lemma_least_completion_unique(
    given: Seq<SudokuChoice>,
    first: Seq<SudokuChoice>,
    second: Seq<SudokuChoice>,
)
    requires
        is_least_completion(given, first),
        is_least_completion(given, second),
    ensures
        first == second,
{
    if first != second {
        let j = lemma_first_difference(first, second);
        assert(first[j].position == second[j].position);
        if first[j].value.number() < second[j].value.number() {
            assert(lex_less(first, second));
        } else {
            assert(second.take(j) == first.take(j));
            assert(lex_less(second, first));
        }
    }
}

/// Given choices that the rules admit one after the other are consistent,
/// and only those are.
pub proof fn lemma_inconsistent(given: Seq<SudokuChoice>, len: int)
    requires
        0 <= len < given.len(),
        given[len].valid(),
        !admits(given.take(len), given[len]),
    ensures
        !consistent(given),
{
    let placed = given.take(len);
    let choice = given[len];
    if consistent(given) {
        if forbids(placed, choice.position, choice.value) {
            let i = choose|i: int|
                0 <= i < placed.len() && rules_out(
                    #[trigger] placed[i],
                    choice.position,
                    choice.value,
                );
            assert(clash(given[i], given[len]));
        } else {
            let q = choose|q: SudokuPosition|
                q.in_grid() && #[trigger] peers(choice.position, q) && !has_candidate(
                    placed.push(choice),
                    q,
                );
            assert(placed.push(choice) =~= given.take(len + 1));
            assert(has_candidate(given, q));
            lemma_candidate_prefix(given, len + 1, q);
        }
    }
}

} // verus!
