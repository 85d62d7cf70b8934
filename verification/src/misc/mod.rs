pub mod cartesian_tree;
pub mod counter;
pub mod entries;
pub mod implicit_treap;
pub mod key_order;
pub mod shape;
pub mod slab;
pub mod tree_laws;
pub mod tree_model;
pub mod union_find;

use std::collections::HashMap;
use std::hash::Hash;
use vstd::prelude::*;
use vstd::std_specs::hash::obeys_key_model;

verus! {

/// `steps` applications of `successor` lead from `from` to `to`.
pub open spec fn walks<N, F: Fn(&N) -> N>(successor: F, from: N, to: N, steps: nat) -> bool
    decreases steps,
{
    if steps == 0 {
        from == to
    } else {
        exists|mid: N| #[trigger]
            call_ensures(successor, (&from,), mid) && walks(successor, mid, to, (steps - 1) as nat)
    }
}

/// A copy made by `clone` is the same state.
pub open spec fn clones_are_same<N: Clone>() -> bool {
    forall|a: N, b: N| #[trigger] cloned(a, b) ==> a == b
}

/// One way after another is a way, as long as both together.
pub proof fn lemma_walks_on<N, F: Fn(&N) -> N>(successor: F, a: N, b: N, c: N, first: nat, second: nat)
    requires
        walks(successor, a, b, first),
        walks(successor, b, c, second),
    ensures
        walks(successor, a, c, first + second),
    decreases first,
{
    if first > 0 {
        let mid = choose|mid: N| #[trigger]
            call_ensures(successor, (&a,), mid) && walks(successor, mid, b, (first - 1) as nat);
        lemma_walks_on(successor, mid, b, c, (first - 1) as nat, second);
    }
}

/// The state that `iterations` applications of `successor` lead to from
/// `start`.
///
/// The way is shortened by remembering where stretches of it led: from a
/// state seen before, the stretch that was walked from it is taken in one
/// step, and two stretches in a row are remembered as one. A stretch that
/// would lead past the end is not taken; what is remembered is then
/// dropped, and shorter stretches are built from there.
pub fn path_contraction<N, FN>(start: &N, successor: FN, iterations: usize) -> (end: N) where
    N: Eq + Hash + Clone,
    FN: Fn(&N) -> N,

    requires
        obeys_key_model::<N>(),
        clones_are_same::<N>(),
        forall|n: N| call_requires(successor, (&n,)),
    ensures
        walks(successor, *start, end, iterations as nat),
{
    broadcast use vstd::std_specs::hash::group_hash_axioms;

    let mut shortcuts: HashMap<N, (N, usize)> = HashMap::new();
    let mut cur = start.clone();
    let mut cur_iter: usize = 0;
    assert(cloned(*start, cur));

    loop
        invariant
            obeys_key_model::<N>(),
            clones_are_same::<N>(),
            forall|n: N| call_requires(successor, (&n,)),
            cur_iter <= iterations,
            walks(successor, *start, cur, cur_iter as nat),
            forall|k: N| #[trigger]
                shortcuts@.contains_key(k) ==> 1 <= shortcuts@[k].1 <= iterations && walks(
                    successor,
                    k,
                    shortcuts@[k].0,
                    shortcuts@[k].1 as nat,
                ),
        decreases iterations - cur_iter,
    {
        if cur_iter == iterations {
            return cur;
        }
        // One stretch from here, remembered or a single step.

        let (next1, iters_step1) = match shortcuts.get(&cur) {
            Some(stretch) => {
                assert(shortcuts@.contains_key(cur));
                let to = stretch.0.clone();
                assert(cloned(stretch.0, to));
                (to, stretch.1)
            },
            None => (successor(&cur), 1),
        };
        assert(walks(successor, cur, next1, iters_step1 as nat)) by {
            assert(walks(successor, next1, next1, 0));
        }

        // And one more from where that leads.
        let (next2, iters_step2) = match shortcuts.get(&next1) {
            Some(stretch) => {
                assert(shortcuts@.contains_key(next1));
                let to = stretch.0.clone();
                assert(cloned(stretch.0, to));
                (to, stretch.1)
            },
            None => (successor(&next1), 1),
        };
        assert(walks(successor, next1, next2, iters_step2 as nat)) by {
            assert(walks(successor, next2, next2, 0));
        }

        let remaining = iterations - cur_iter;
        if iters_step1 <= remaining && iters_step2 <= remaining - iters_step1 {
            // Both fit: they are remembered as one stretch.
            let both = iters_step1 + iters_step2;
            proof {
                lemma_walks_on(successor, cur, next1, next2, iters_step1 as nat, iters_step2 as nat);
                lemma_walks_on(successor, *start, cur, next2, cur_iter as nat, both as nat);
            }
            let to = next2.clone();
            assert(cloned(next2, to));
            shortcuts.insert(cur, (to, both));
            cur = next2;
            cur_iter += both;
        } else if iters_step1 <= remaining {
            proof {
                lemma_walks_on(successor, *start, cur, next1, cur_iter as nat, iters_step1 as nat);
            }
            let to = next1.clone();
            assert(cloned(next1, to));
            shortcuts.insert(cur, (to, iters_step1));
            cur = next1;
            cur_iter += iters_step1;
        } else {
            // Even one stretch leads too far: a single step, and a new start.
            let next = successor(&cur);
            proof {
                assert(walks(successor, next, next, 0));
                assert(walks(successor, cur, next, 1));
                lemma_walks_on(successor, *start, cur, next, cur_iter as nat, 1);
            }
            cur = next;
            cur_iter += 1;
            shortcuts.clear();
        }
    }
}

/// How often `t` occurs in `list`.
pub open spec fn occurrences<S>(list: Seq<S>, t: S) -> nat
    decreases list.len(),
{
    if list.len() == 0 {
        0
    } else {
        occurrences(list.drop_last(), t) + if list.last() == t {
            1nat
        } else {
            0nat
        }
    }
}

/// How often `t` is arrived at: for each state of `pairs`, as often as the
/// state occurred, times the number of times that `t` is among the
/// states that follow it, which `lists` gives.
pub open spec fn arrivals<S>(pairs: Seq<(S, usize)>, lists: Seq<Seq<S>>, t: S) -> nat
    decreases pairs.len(),
{
    if pairs.len() == 0 {
        0
    } else {
        arrivals(pairs.drop_last(), lists.drop_last(), t) + (pairs.last().1 as nat) * occurrences(
            lists.last(),
            t,
        )
    }
}

/// `pairs` holds entries of `states`, none twice.
pub open spec fn entries_of<S>(states: Map<S, usize>, pairs: Seq<(S, usize)>) -> bool {
    &&& forall|i: int|
        0 <= i < pairs.len() ==> states.contains_key((#[trigger] pairs[i]).0) && states[pairs[i].0]
            == pairs[i].1
    &&& forall|i: int, j: int|
        0 <= i < j < pairs.len() ==> (#[trigger] pairs[i]).0 != (#[trigger] pairs[j]).0
}

/// `transition` gave `list` for `state` and `input`.
pub open spec fn gave<S, IN, FN: Fn(&S, &IN) -> Vec<S>>(
    transition: FN,
    input: IN,
    state: S,
    list: Seq<S>,
) -> bool {
    exists|found: Vec<S>| #[trigger] call_ensures(transition, (&state, &input), found) && found@ == list
}

/// `lists` holds, for each state of `pairs`, the states that `transition`
/// gave for it and `input`.
pub open spec fn transitions_of<S, IN, FN: Fn(&S, &IN) -> Vec<S>>(
    transition: FN,
    input: IN,
    pairs: Seq<(S, usize)>,
    lists: Seq<Seq<S>>,
) -> bool {
    &&& lists.len() == pairs.len()
    &&& forall|i: int|
        0 <= i < pairs.len() ==> gave(transition, input, (#[trigger] pairs[i]).0, lists[i])
}

/// `t` is in one of the lists.
pub open spec fn among_lists<S>(lists: Seq<Seq<S>>, t: S) -> bool {
    exists|i: int| 0 <= i < lists.len() && (#[trigger] lists[i]).contains(t)
}

/// The count under `t`; 0 if there is none.
pub open spec fn count_of<S>(counts: Map<S, usize>, t: S) -> nat {
    if counts.contains_key(t) {
        counts[t] as nat
    } else {
        0
    }
}

/// No count that a transition of states of `states` can add up to is
/// beyond a machine word.
pub open spec fn counts_fit<S, IN, FN: Fn(&S, &IN) -> Vec<S>>(
    states: Map<S, usize>,
    transition: FN,
    input: IN,
) -> bool {
    forall|pairs: Seq<(S, usize)>, lists: Seq<Seq<S>>, t: S|
        #![trigger transitions_of(transition, input, pairs, lists), arrivals(pairs, lists, t)]
        entries_of(states, pairs) && transitions_of(transition, input, pairs, lists) ==> arrivals(
            pairs,
            lists,
            t,
        ) <= usize::MAX
}

/// `next` is `states` after one transition: for some order of the entries
/// of `states`, it holds every state that `transition` gave for one of
/// them, with the number of times that it is arrived at.
pub open spec fn iterated<S, IN, FN: Fn(&S, &IN) -> Vec<S>>(
    states: Map<S, usize>,
    transition: FN,
    input: IN,
    next: Map<S, usize>,
) -> bool {
    exists|pairs: Seq<(S, usize)>, lists: Seq<Seq<S>>|
        #![trigger transitions_of(transition, input, pairs, lists)]
        {
            &&& entries_of(states, pairs)
            &&& pairs.len() == states.dom().len()
            &&& transitions_of(transition, input, pairs, lists)
            &&& forall|t: S| #[trigger] next.contains_key(t) <==> among_lists(lists, t)
            &&& forall|t: S| #[trigger] count_of(next, t) == arrivals(pairs, lists, t)
        }
}

proof fn lemma_occurrences_grow<S>(list: Seq<S>, k: int, t: S)
    requires
        0 <= k <= list.len(),
    ensures
        occurrences(list.take(k), t) <= occurrences(list, t),
        occurrences(list, t) > 0 <==> list.contains(t),
    decreases list.len(),
{
    if list.len() > 0 {
        let front = list.drop_last();
        if k < list.len() {
            lemma_occurrences_grow(front, k, t);
            assert(front.take(k) =~= list.take(k));
        } else {
            assert(list.take(k) =~= list);
            lemma_occurrences_grow(front, front.len() as int, t);
        }
        if list.contains(t) {
            let i = choose|i: int| 0 <= i < list.len() && list[i] == t;
            if i < front.len() {
                assert(front[i] == t);
            }
        }
        if front.contains(t) {
            let i = choose|i: int| 0 <= i < front.len() && front[i] == t;
            assert(list[i] == t);
        }
    } else {
        assert(list.take(k) =~= list);
    }
}

/// Iterates a state function once.
///
/// `states` says how often each state has occurred. `transition` gives,
/// for a state and the input, the states that follow it, and the result
/// says how often each of those is arrived at: a state is arrived at as
/// often as the states occurred that it follows, each time that it
/// follows them. With the states of a finite state machine, this counts
/// the ways to be in each state after one more step.
pub fn state_iteration<S, FN, IN>(states: &HashMap<S, usize>, transition: FN, input: IN) -> (next:
    HashMap<S, usize>) where S: Eq + Hash + Clone, FN: Fn(&S, &IN) -> Vec<S>
    requires
        obeys_key_model::<S>(),
        clones_are_same::<S>(),
        forall|s: S, i: IN| call_requires(transition, (&s, &i)),
        counts_fit(states@, transition, input),
    ensures
        iterated(states@, transition, input, next@),
{
    broadcast use vstd::std_specs::hash::group_hash_axioms;

    let mut new_states: HashMap<S, usize> = HashMap::new();
    let ghost mut pairs: Seq<(S, usize)> = Seq::empty();
    let ghost mut lists: Seq<Seq<S>> = Seq::empty();
    for pair in it: states.iter()
        invariant
            obeys_key_model::<S>(),
            clones_are_same::<S>(),
            forall|s: S, i: IN| call_requires(transition, (&s, &i)),
            counts_fit(states@, transition, input),
            it.seq().len() == states@.dom().len(),
            it.seq().no_duplicates(),
            forall|i: int|
                0 <= i < it.seq().len() ==> states@.contains_key(*(#[trigger] it.seq()[i]).0)
                    && states@[*it.seq()[i].0] == *it.seq()[i].1,
            pairs.len() == it.index(),
            forall|i: int|
                0 <= i < pairs.len() ==> (#[trigger] pairs[i]).0 == *it.seq()[i].0 && pairs[i].1
                    == *it.seq()[i].1,
            entries_of(states@, pairs),
            transitions_of(transition, input, pairs, lists),
            forall|t: S| #[trigger] new_states@.contains_key(t) <==> among_lists(lists, t),
            forall|t: S| #[trigger] count_of(new_states@, t) == arrivals(pairs, lists, t),
    {
        let (state, count) = pair;
        let list = transition(state, &input);
        let ghost done = pairs;
        let ghost done_lists = lists;
        let ghost with_this = pairs.push((*state, *count));
        let ghost with_list = lists.push(list@);
        proof {
            assert(with_this.drop_last() =~= done);
            assert(with_list.drop_last() =~= done_lists);
            assert forall|i: int, j: int| 0 <= i < j < with_this.len() implies (
            #[trigger] with_this[i]).0 != (#[trigger] with_this[j]).0 by {
                if j == done.len() {
                    let a = it.seq()[i];
                    let b = it.seq()[j];
                    assert(a != b);
                    assert(with_this[i].0 == *a.0 && states@[*a.0] == *a.1);
                    assert(states@[*b.0] == *b.1);
                }
            }
            assert forall|i: int| 0 <= i < with_this.len() implies gave(
                transition,
                input,
                (#[trigger] with_this[i]).0,
                with_list[i],
            ) by {
                if i < done.len() {
                    assert(gave(transition, input, done[i].0, done_lists[i]));
                } else {
                    assert(call_ensures(transition, (&with_this[i].0, &input), list) && list@
                        == with_list[i]);
                }
            }
            assert(entries_of(states@, with_this));
            assert(transitions_of(transition, input, with_this, with_list));
            assert forall|t: S| #[trigger]
                count_of(new_states@, t) == arrivals(done, done_lists, t) + *count * occurrences(
                    list@.take(0),
                    t,
                ) by {
                assert(list@.take(0).len() == 0);
                assert(*count * 0 == 0);
            }
        }
        let mut j: usize = 0;
        while j < list.len()
            invariant
                obeys_key_model::<S>(),
                clones_are_same::<S>(),
                counts_fit(states@, transition, input),
                entries_of(states@, with_this),
                transitions_of(transition, input, with_this, with_list),
                with_this == done.push((*state, *count)),
                with_list == done_lists.push(list@),
                j <= list@.len(),
                forall|t: S|
                    #[trigger] new_states@.contains_key(t) <==> among_lists(done_lists, t)
                        || list@.take(j as int).contains(t),
                forall|t: S| #[trigger]
                    count_of(new_states@, t) == arrivals(done, done_lists, t) + *count * occurrences(
                        list@.take(j as int),
                        t,
                    ),
            decreases list@.len() - j,
        {
            let new_state = list[j].clone();
            assert(cloned(list@[j as int], new_state));
            let ghost before = new_states@;
            let so_far = match new_states.get(&new_state) {
                Some(c) => *c,
                None => 0,
            };
            proof {
                assert(so_far == count_of(before, new_state));
                assert(list@.take(j + 1).drop_last() =~= list@.take(j as int));
                assert(list@.take(j + 1).last() == new_state);
                lemma_occurrences_grow(list@, j + 1, new_state);
                assert(with_this.drop_last() =~= done && with_list.drop_last() =~= done_lists);
                assert(arrivals(with_this, with_list, new_state) == arrivals(
                    done,
                    done_lists,
                    new_state,
                ) + *count * occurrences(list@, new_state));
                assert(arrivals(with_this, with_list, new_state) <= usize::MAX);
                assert(*count * occurrences(list@.take(j + 1), new_state) <= *count * occurrences(
                    list@,
                    new_state,
                )) by (nonlinear_arith)
                    requires
                        occurrences(list@.take(j + 1), new_state) <= occurrences(list@, new_state),
                ;
                assert(*count * occurrences(list@.take(j + 1), new_state) == *count * occurrences(
                    list@.take(j as int),
                    new_state,
                ) + *count) by (nonlinear_arith)
                    requires
                        occurrences(list@.take(j + 1), new_state) == occurrences(
                            list@.take(j as int),
                            new_state,
                        ) + 1,
                ;
            }
            new_states.insert(new_state, so_far + *count);
            proof {
                assert forall|t: S|
                    #[trigger] new_states@.contains_key(t) <==> among_lists(done_lists, t)
                        || list@.take(j + 1).contains(t) by {
                    if list@.take(j as int).contains(t) {
                        let shorter = list@.take(j as int);
                        let i = choose|i: int| 0 <= i < shorter.len() && shorter[i] == t;
                        assert(list@.take(j + 1)[i] == t);
                    }
                    if list@.take(j + 1).contains(t) && t != new_state {
                        let longer = list@.take(j + 1);
                        let i = choose|i: int| 0 <= i < longer.len() && longer[i] == t;
                        assert(list@.take(j as int)[i] == t);
                    }
                    if t == new_state {
                        assert(list@.take(j + 1)[j as int] == t);
                    }
                }
                assert forall|t: S| #[trigger]
                    count_of(new_states@, t) == arrivals(done, done_lists, t) + *count * occurrences(
                        list@.take(j + 1),
                        t,
                    ) by {
                    if t != new_state {
                        assert(count_of(new_states@, t) == count_of(before, t));
                        assert(occurrences(list@.take(j + 1), t) == occurrences(list@.take(j as int), t));
                    }
                }
            }
            j += 1;
        }
        proof {
            assert(list@.take(j as int) =~= list@);
            pairs = with_this;
            lists = with_list;
            assert forall|t: S| #[trigger] new_states@.contains_key(t) <==> among_lists(lists, t) by {
                if among_lists(done_lists, t) {
                    let i = choose|i: int| 0 <= i < done_lists.len() && (#[trigger] done_lists[i]).contains(t);
                    assert(lists[i].contains(t));
                }
                if list@.contains(t) {
                    assert(lists[done_lists.len() as int].contains(t));
                }
                if among_lists(lists, t) {
                    let i = choose|i: int| 0 <= i < lists.len() && (#[trigger] lists[i]).contains(t);
                    if i < done_lists.len() {
                        assert(done_lists[i].contains(t));
                    }
                }
            }
            assert forall|t: S| #[trigger] count_of(new_states@, t) == arrivals(pairs, lists, t) by {
                assert(pairs.drop_last() =~= done && lists.drop_last() =~= done_lists);
            }
        }
    }
    proof {
        assert(transitions_of(transition, input, pairs, lists));
    }
    new_states
}

} // verus!
