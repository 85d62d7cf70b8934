//! Branch and bound.
//!
//! A search for the cheapest solution in a space too large to go through:
//! of a state that is no solution yet, a bound says how cheap the
//! solutions below it can be at best, and states whose bound does not beat
//! the best solution found so far are not looked into.

use crate::misc::clones_are_same;
use crate::misc::key_order::{compare, key_lt, lemma_lt_transitive, total_order, Rel};
use vstd::prelude::*;

verus! {

/// `child` is among the successors of `parent`.
pub open spec fn child_of<N, FN: Fn(&N) -> Vec<N>>(successors: FN, parent: N, child: N) -> bool {
    exists|list: Vec<N>| #[trigger] call_ensures(successors, (&parent,), list) && list@.contains(child)
}

/// `to` is reached from `from` by going to a successor `steps` times, each
/// time from a state that is no solution.
pub open spec fn expands_to<N, C, FN: Fn(&N) -> Vec<N>, FC: Fn(&N) -> Option<C>>(
    successors: FN,
    cost: FC,
    from: N,
    to: N,
    steps: nat,
) -> bool
    decreases steps,
{
    if steps == 0 {
        from == to
    } else {
        call_ensures(cost, (&from,), None::<C>) && exists|mid: N| #[trigger]
            child_of(successors, from, mid) && expands_to(
                successors,
                cost,
                mid,
                to,
                (steps - 1) as nat,
            )
    }
}

/// `to` is reached from `from` by going to a successor some number of
/// times, each time from a state that is no solution.
pub open spec fn below<N, C, FN: Fn(&N) -> Vec<N>, FC: Fn(&N) -> Option<C>>(
    successors: FN,
    cost: FC,
    from: N,
    to: N,
) -> bool {
    exists|steps: nat| #[trigger] expands_to(successors, cost, from, to, steps)
}

/// `to` is a solution of cost `c` below `from`.
pub open spec fn solution_below<N, C, FN: Fn(&N) -> Vec<N>, FC: Fn(&N) -> Option<C>>(
    successors: FN,
    cost: FC,
    from: N,
    to: N,
    c: C,
) -> bool {
    call_ensures(cost, (&to,), Some(c)) && below(successors, cost, from, to)
}

/// A state has one cost, one bound and one list of successors.
pub open spec fn single_valued<
    N,
    C,
    FN: Fn(&N) -> Vec<N>,
    FC: Fn(&N) -> Option<C>,
    FB: Fn(&N) -> C,
>(successors: FN, cost: FC, bound: FB) -> bool {
    &&& forall|n: N, a: Option<C>, b: Option<C>|
        #![trigger call_ensures(cost, (&n,), a), call_ensures(cost, (&n,), b)]
        call_ensures(cost, (&n,), a) && call_ensures(cost, (&n,), b) ==> a == b
    &&& forall|n: N, a: C, b: C|
        #![trigger call_ensures(bound, (&n,), a), call_ensures(bound, (&n,), b)]
        call_ensures(bound, (&n,), a) && call_ensures(bound, (&n,), b) ==> a == b
    &&& forall|n: N, a: Vec<N>, b: Vec<N>|
        #![trigger call_ensures(successors, (&n,), a), call_ensures(successors, (&n,), b)]
        call_ensures(successors, (&n,), a) && call_ensures(successors, (&n,), b) ==> a@ == b@
}

/// No solution below a state is cheaper than the bound of the state.
pub open spec fn admissible<N, C: Ord, FN: Fn(&N) -> Vec<N>, FC: Fn(&N) -> Option<C>, FB: Fn(&N) -> C>(
    successors: FN,
    cost: FC,
    bound: FB,
) -> bool {
    forall|from: N, to: N, c: C, low: C|
        #![trigger solution_below(successors, cost, from, to, c), call_ensures(bound, (&from,), low)]
        solution_below(successors, cost, from, to, c) && call_ensures(bound, (&from,), low)
            ==> !key_lt(c, low)
}

/// The sizes of the states, added up.
pub open spec fn total_size<N>(states: Seq<N>, size: spec_fn(N) -> nat) -> nat
    decreases states.len(),
{
    if states.len() == 0 {
        0
    } else {
        total_size(states.drop_last(), size) + size(states.last())
    }
}

/// Every state has a size, and the successors of a state are together
/// smaller than the state: the space below a state is finite.
pub open spec fn shrinks<N, FN: Fn(&N) -> Vec<N>>(successors: FN, size: spec_fn(N) -> nat) -> bool {
    &&& forall|n: N| #[trigger] size(n) >= 1
    &&& forall|n: N, list: Vec<N>| #[trigger]
        call_ensures(successors, (&n,), list) ==> total_size(list@, size) < size(n)
}

/// What the search gives: the start itself, as long as no solution was
/// found, or else a solution below the start. If the bound is admissible,
/// a solution is found if there is one, and none is cheaper than it.
pub open spec fn best_below<N, C: Ord, FN: Fn(&N) -> Vec<N>, FC: Fn(&N) -> Option<C>, FB: Fn(&N) -> C>(
    successors: FN,
    cost: FC,
    bound: FB,
    start: N,
    found: N,
) -> bool {
    &&& found == start || exists|c: C| #[trigger] solution_below(successors, cost, start, found, c)
    &&& admissible(successors, cost, bound) ==> forall|other: N, c: C| #[trigger]
        solution_below(successors, cost, start, other, c) ==> exists|best: C| #[trigger]
            solution_below(successors, cost, start, found, best) && !key_lt(c, best)
}

// The state is among those that wait.
spec fn waits<N>(waiting: Seq<N>, n: N) -> bool {
    exists|k: int| 0 <= k < waiting.len() && waiting[k] == n
}

// The bound of the state does not beat the best solution.
spec fn hopeless<N, C: Ord, FB: Fn(&N) -> C>(bound: FB, best: Option<C>, n: N) -> bool {
    best is Some && exists|low: C| #[trigger]
        call_ensures(bound, (&n,), low) && !key_lt(low, best.unwrap())
}

// A solution below a child of a state that is no solution is below the state.
proof fn lemma_below_child<N, C, FN: Fn(&N) -> Vec<N>, FC: Fn(&N) -> Option<C>>(
    successors: FN,
    cost: FC,
    parent: N,
    child: N,
    to: N,
    steps: nat,
)
    requires
        call_ensures(cost, (&parent,), None::<C>),
        child_of(successors, parent, child),
        expands_to(successors, cost, child, to, steps),
    ensures
        expands_to(successors, cost, parent, to, steps + 1),
{
}

// One way after another is a way.
proof fn lemma_expands_on<N, C, FN: Fn(&N) -> Vec<N>, FC: Fn(&N) -> Option<C>>(
    successors: FN,
    cost: FC,
    a: N,
    b: N,
    c: N,
    first: nat,
    second: nat,
)
    requires
        expands_to(successors, cost, a, b, first),
        expands_to(successors, cost, b, c, second),
    ensures
        expands_to(successors, cost, a, c, first + second),
    decreases first,
{
    if first > 0 {
        let mid = choose|mid: N| #[trigger]
            child_of(successors, a, mid) && expands_to(successors, cost, mid, b, (first - 1) as nat);
        lemma_expands_on(successors, cost, mid, b, c, (first - 1) as nat, second);
    }
}

proof fn lemma_total_size_push<N>(states: Seq<N>, last: N, size: spec_fn(N) -> nat)
    ensures
        total_size(states.push(last), size) == total_size(states, size) + size(last),
{
    assert(states.push(last).drop_last() =~= states);
}

// Every solution below the start is covered: the best solution so far is
// no dearer, or the solution is below a state that is still waiting.
spec fn covered<N, C: Ord, FN: Fn(&N) -> Vec<N>, FC: Fn(&N) -> Option<C>>(
    successors: FN,
    cost: FC,
    start: N,
    waiting: Seq<N>,
    best: Option<C>,
) -> bool {
    forall|other: N, c: C| #[trigger]
        solution_below(successors, cost, start, other, c) ==> (best matches Some(b) && !key_lt(c, b))
            || exists|i: int|
            0 <= i < waiting.len() && #[trigger] solution_below(successors, cost, waiting[i], other, c)
}

/// The cheapest solution below `start`.
///
/// `successors` gives the states that follow a state, `cost` the cost of a
/// state that is a solution, and nothing of one that is not, and `bound`
/// a bound from below on the cost of the solutions below a state. States
/// whose bound does not beat the best solution so far are left out.
pub fn branch_and_bound<N, FN, FC, FB, C>(start: &N, successors: FN, cost: FC, bound: FB) -> (found: N) where
    N: Clone,
    FN: Fn(&N) -> Vec<N>,
    FC: Fn(&N) -> Option<C>,
    FB: Fn(&N) -> C,
    C: Ord + Copy,

    requires
        forall|n: N| call_requires(successors, (&n,)),
        forall|n: N| call_requires(cost, (&n,)),
        forall|n: N| call_requires(bound, (&n,)),
        single_valued(successors, cost, bound),
        clones_are_same::<N>(),
        total_order::<C>(),
        exists|size: spec_fn(N) -> nat| #[trigger] shrinks(successors, size),
    ensures
        best_below(successors, cost, bound, *start, found),
{
    let ghost size = choose|size: spec_fn(N) -> nat| #[trigger] shrinks(successors, size);
    let mut stack: Vec<N> = Vec::new();
    let first = start.clone();
    assert(cloned(*start, first));
    stack.push(first);
    let mut best: Option<C> = None;
    let mut best_n = start.clone();
    assert(cloned(*start, best_n));
    proof {
        assert forall|other: N, c: C| #[trigger]
            solution_below(successors, cost, *start, other, c) implies exists|i: int|
            0 <= i < stack@.len() && #[trigger] solution_below(successors, cost, stack@[i], other, c) by {
            assert(solution_below(successors, cost, stack@[0], other, c));
        }
        assert(expands_to(successors, cost, *start, *start, 0));
    }

    while stack.len() > 0
        invariant
            forall|n: N| call_requires(successors, (&n,)),
            forall|n: N| call_requires(cost, (&n,)),
            forall|n: N| call_requires(bound, (&n,)),
            single_valued(successors, cost, bound),
            clones_are_same::<N>(),
            total_order::<C>(),
            shrinks(successors, size),
            forall|i: int| 0 <= i < stack@.len() ==> below(successors, cost, *start, #[trigger] stack@[i]),
            match best {
                Some(b) => solution_below(successors, cost, *start, best_n, b),
                None => best_n == *start,
            },
            admissible(successors, cost, bound) ==> covered(successors, cost, *start, stack@, best),
        decreases total_size(stack@, size),
    {
        let ghost waiting = stack@;
        let ghost best_before = best;
        let cur = stack.pop().unwrap();
        let ghost rest = stack@;
        assert(below(successors, cost, *start, waiting[waiting.len() - 1]));
        let ghost depth = choose|steps: nat| #[trigger]
            expands_to(successors, cost, *start, waiting[waiting.len() - 1], steps);
        proof {
            assert(rest == waiting.drop_last());
        }
        match cost(&cur) {
            Some(c) => {
                let better = match best {
                    Some(b) => match compare(&c, &b) {
                        Rel::Less => true,
                        _ => false,
                    },
                    None => true,
                };
                if better {
                    best = Some(c);
                    best_n = cur.clone();
                    assert(cloned(cur, best_n));
                }
                proof {
                    if admissible(successors, cost, bound) {
                        assert forall|other: N, oc: C| #[trigger]
                            solution_below(successors, cost, *start, other, oc) implies (
                        best matches Some(b) && !key_lt(oc, b)) || exists|i: int|
                            0 <= i < rest.len() && #[trigger] solution_below(
                                successors,
                                cost,
                                rest[i],
                                other,
                                oc,
                            ) by {
                            lemma_still_covered(
                                successors,
                                cost,
                                *start,
                                waiting,
                                best_before,
                                best,
                                cur,
                                c,
                                other,
                                oc,
                            );
                        }
                    }
                }
            },
            None => {
                let list = successors(&cur);
                let ghost all = list@;
                let mut i: usize = 0;
                while i < list.len()
                    invariant
                        forall|n: N| call_requires(bound, (&n,)),
                        single_valued(successors, cost, bound),
                        clones_are_same::<N>(),
                        total_order::<C>(),
                        i <= list@.len(),
                        all == list@,
                        call_ensures(successors, (&cur,), list),
                        call_ensures(cost, (&cur,), None::<C>),
                        expands_to(successors, cost, *start, cur, depth),
                        forall|j: int|
                            0 <= j < stack@.len() ==> below(successors, cost, *start, #[trigger] stack@[j]),
                        stack@.len() >= rest.len(),
                        forall|j: int| 0 <= j < rest.len() ==> (#[trigger] stack@[j]) == rest[j],
                        total_size(stack@, size) <= total_size(rest, size) + total_size(
                            all.take(i as int),
                            size,
                        ),
                        // Each successor so far is waiting, or its bound does
                        // not beat the best solution.
                        forall|j: int|
                            0 <= j < i ==> waits(stack@, #[trigger] all[j]) || hopeless(
                                bound,
                                best,
                                all[j],
                            ),
                    decreases list@.len() - i,
                {
                    let ghost before = stack@;
                    let next = list[i].clone();
                    assert(cloned(list@[i as int], next));
                    let promising = match best {
                        Some(b) => {
                            let low = bound(&next);
                            match compare(&low, &b) {
                                Rel::Less => true,
                                _ => false,
                            }
                        },
                        None => true,
                    };
                    proof {
                        assert(all.take(i + 1).drop_last() =~= all.take(i as int));
                        assert(all.take(i + 1).last() == all[i as int]);
                    }
                    if promising {
                        stack.push(next);
                        proof {
                            lemma_total_size_push(before, next, size);
                            assert(child_of(successors, cur, next)) by {
                                assert(list@.contains(list@[i as int]));
                            }
                            lemma_below_child(successors, cost, cur, next, next, 0);
                            lemma_expands_on(successors, cost, *start, cur, next, depth, 1);
                            assert forall|j: int| 0 <= j < stack@.len() implies below(
                                successors,
                                cost,
                                *start,
                                #[trigger] stack@[j],
                            ) by {
                                if j < before.len() {
                                    assert(stack@[j] == before[j]);
                                }
                            }
                            assert forall|j: int| 0 <= j < i + 1 implies waits(
                                stack@,
                                #[trigger] all[j],
                            ) || hopeless(bound, best, all[j]) by {
                                if j < i {
                                    if waits(before, all[j]) {
                                        let k = choose|k: int| 0 <= k < before.len() && before[k] == all[j];
                                        assert(stack@[k] == all[j]);
                                    }
                                } else {
                                    assert(stack@[before.len() as int] == all[j]);
                                }
                            }
                        }
                    } else {
                        proof {
                            assert(hopeless(bound, best, all[i as int]));
                        }
                    }
                    i += 1;
                }
                proof {
                    assert(all.take(i as int) =~= all);
                    assert(total_size(waiting, size) == total_size(rest, size) + size(cur));
                    assert forall|j: int| 0 <= j < waiting.len() - 1 implies (#[trigger] stack@[j])
                        == waiting[j] by {
                        assert(stack@[j] == rest[j]);
                    }
                    if admissible(successors, cost, bound) {
                        assert forall|other: N, oc: C| #[trigger]
                            solution_below(successors, cost, *start, other, oc) implies (
                        best matches Some(b) && !key_lt(oc, b)) || exists|k: int|
                            0 <= k < stack@.len() && #[trigger] solution_below(
                                successors,
                                cost,
                                stack@[k],
                                other,
                                oc,
                            ) by {
                            lemma_covered_by_children(
                                successors,
                                cost,
                                bound,
                                *start,
                                waiting,
                                stack@,
                                best,
                                cur,
                                list,
                                other,
                                oc,
                            );
                        }
                    }
                }
            },
        }
    }
    proof {
        if admissible(successors, cost, bound) {
            assert forall|other: N, c: C| #[trigger]
                solution_below(successors, cost, *start, other, c) implies exists|b: C| #[trigger]
                solution_below(successors, cost, *start, best_n, b) && !key_lt(c, b) by {
                assert(best matches Some(b) && !key_lt(c, b));
            }
        }
    }
    best_n
}

// After a solution was taken off the waiting states and compared with the
// best so far, every solution is still covered.
proof fn lemma_still_covered<N, C: Ord, FN: Fn(&N) -> Vec<N>, FC: Fn(&N) -> Option<C>>(
    successors: FN,
    cost: FC,
    start: N,
    waiting: Seq<N>,
    before: Option<C>,
    after: Option<C>,
    cur: N,
    c: C,
    other: N,
    oc: C,
)
    requires
        total_order::<C>(),
        waiting.len() > 0,
        cur == waiting.last(),
        call_ensures(cost, (&cur,), Some(c)),
        forall|n: N, a: Option<C>, b: Option<C>|
            #![trigger call_ensures(cost, (&n,), a), call_ensures(cost, (&n,), b)]
            call_ensures(cost, (&n,), a) && call_ensures(cost, (&n,), b) ==> a == b,
        covered(successors, cost, start, waiting, before),
        solution_below(successors, cost, start, other, oc),
        after == (match before {
            Some(b) => if key_lt(c, b) {
                Some(c)
            } else {
                Some(b)
            },
            None => Some(c),
        }),
    ensures
        (after matches Some(b) && !key_lt(oc, b)) || exists|i: int|
            0 <= i < waiting.len() - 1 && #[trigger] solution_below(
                successors,
                cost,
                waiting.drop_last()[i],
                other,
                oc,
            ),
{
    let rest = waiting.drop_last();
    if before is Some && !key_lt(oc, before.unwrap()) {
        let b = before.unwrap();
        if key_lt(c, b) {
            if key_lt(oc, c) {
                lemma_lt_transitive(oc, c, b);
            }
        }
    } else {
        let i = choose|i: int|
            0 <= i < waiting.len() && #[trigger] solution_below(successors, cost, waiting[i], other, oc);
        if i < waiting.len() - 1 {
            assert(rest[i] == waiting[i]);
        } else {
            // The solution is below a solution, and so is that solution.
            let steps = choose|steps: nat| #[trigger]
                expands_to(successors, cost, cur, other, steps);
            assert(steps == 0);
            assert(oc == c);
            crate::misc::key_order::lemma_lt_irreflexive(c);
            if before is Some {
                let b = before.unwrap();
                if !key_lt(c, b) {
                    crate::misc::key_order::lemma_lt_total(c, b);
                }
            }
        }
    }
}

// After a state that is no solution was taken off the waiting states and
// its successors were put there, but for those whose bound does not beat
// the best solution, every solution is still covered.
proof fn lemma_covered_by_children<
    N,
    C: Ord,
    FN: Fn(&N) -> Vec<N>,
    FC: Fn(&N) -> Option<C>,
    FB: Fn(&N) -> C,
>(
    successors: FN,
    cost: FC,
    bound: FB,
    start: N,
    waiting: Seq<N>,
    after: Seq<N>,
    best: Option<C>,
    cur: N,
    list: Vec<N>,
    other: N,
    oc: C,
)
    requires
        total_order::<C>(),
        single_valued(successors, cost, bound),
        admissible(successors, cost, bound),
        waiting.len() > 0,
        cur == waiting.last(),
        call_ensures(cost, (&cur,), None::<C>),
        call_ensures(successors, (&cur,), list),
        covered(successors, cost, start, waiting, best),
        solution_below(successors, cost, start, other, oc),
        after.len() >= waiting.len() - 1,
        forall|j: int| 0 <= j < waiting.len() - 1 ==> (#[trigger] after[j]) == waiting[j],
        forall|j: int|
            0 <= j < list@.len() ==> waits(after, #[trigger] list@[j]) || hopeless(bound, best, list@[j]),
    ensures
        (best matches Some(b) && !key_lt(oc, b)) || exists|k: int|
            0 <= k < after.len() && #[trigger] solution_below(successors, cost, after[k], other, oc),
{
    if best is Some && !key_lt(oc, best.unwrap()) {
    } else {
        let i = choose|i: int|
            0 <= i < waiting.len() && #[trigger] solution_below(successors, cost, waiting[i], other, oc);
        if i < waiting.len() - 1 {
            assert(after[i] == waiting[i]);
        } else {
            let steps = choose|steps: nat| #[trigger]
                expands_to(successors, cost, cur, other, steps);
            // The state itself is no solution, so the solution is below a successor.
            assert(steps > 0);
            let mid = choose|mid: N| #[trigger]
                child_of(successors, cur, mid) && expands_to(
                    successors,
                    cost,
                    mid,
                    other,
                    (steps - 1) as nat,
                );
            let found = choose|found: Vec<N>| #[trigger]
                call_ensures(successors, (&cur,), found) && found@.contains(mid);
            assert(found@ == list@);
            let j = choose|j: int| 0 <= j < list@.len() && list@[j] == mid;
            assert(solution_below(successors, cost, mid, other, oc));
            if waits(after, list@[j]) {
                let k = choose|k: int| 0 <= k < after.len() && after[k] == list@[j];
                assert(solution_below(successors, cost, after[k], other, oc));
            } else {
                let b = best.unwrap();
                let low = choose|low: C| #[trigger]
                    call_ensures(bound, (&list@[j],), low) && !key_lt(low, b);
                // The bound is not above the solution, and the best not above the bound.
                assert(!key_lt(oc, low));
                if key_lt(oc, b) {
                    crate::misc::key_order::lemma_lt_total(low, b);
                    crate::misc::key_order::lemma_lt_total(oc, low);
                    if low != b {
                        if oc != low {
                            lemma_lt_transitive(low, oc, b);
                        }
                    }
                }
            }
        }
    }
}

} // verus!
