//! Nested search.
//!
//! At level 0 the search plays out by a heuristic. At a higher level it
//! goes, state by state, to the successor from which the search of the
//! level below ends best. Higher levels take exponentially longer.

use crate::misc::clones_are_same;
use crate::misc::key_order::{compare, key_lt, lemma_lt_asymmetric, lemma_lt_transitive, total_order, Rel};
use std::hash::Hash;
use vstd::prelude::*;

verus! {

/// `steps` moves of the heuristic lead from `from` to `to`.
pub open spec fn follows<N, FH: Fn(&N) -> Option<N>>(heuristic: FH, from: N, to: N, steps: nat) -> bool
    decreases steps,
{
    if steps == 0 {
        from == to
    } else {
        exists|mid: N| #[trigger]
            call_ensures(heuristic, (&from,), Some(mid)) && follows(
                heuristic,
                mid,
                to,
                (steps - 1) as nat,
            )
    }
}

/// The heuristic leads from `from` to `to` and no further.
pub open spec fn played_out<N, FH: Fn(&N) -> Option<N>>(heuristic: FH, from: N, to: N) -> bool {
    call_ensures(heuristic, (&to,), None::<N>) && exists|steps: nat| #[trigger]
        follows(heuristic, from, to, steps)
}

/// The score at `i` is the first of the highest: none is higher, and all
/// before it are lower.
pub open spec fn first_highest<C: Ord>(scores: Seq<C>, i: int) -> bool {
    &&& 0 <= i < scores.len()
    &&& forall|j: int| 0 <= j < scores.len() ==> !key_lt(scores[i], #[trigger] scores[j])
    &&& forall|j: int| 0 <= j < i ==> key_lt(#[trigger] scores[j], scores[i])
}

/// The search of the given level leads from `from` to `to`, in `steps`
/// moves to a successor.
///
/// At level 0 there are no such moves: the heuristic is played out. At a
/// higher level a state without successors is the end. From any other
/// state the search moves to the successor that is best for one level
/// less: each successor is rated by the score of the state where the
/// search of the level below ends from it, and the first of the highest
/// rated is taken.
pub open spec fn searched<
    N,
    C: Ord,
    FS: Fn(&N) -> Vec<N>,
    FH: Fn(&N) -> Option<N>,
    FC: Fn(&N) -> C,
>(level: nat, successors: FS, heuristic: FH, score: FC, from: N, to: N, steps: nat) -> bool
    decreases level, steps,
{
    if level == 0 {
        steps == 0 && played_out(heuristic, from, to)
    } else {
        exists|list: Vec<N>, ends: Seq<(N, nat)>, scores: Seq<C>, i: int|
            #![trigger call_ensures(successors, (&from,), list), ends.len(), first_highest(scores, i)]
            call_ensures(successors, (&from,), list) && if list@.len() == 0 {
                steps == 0 && to == from
            } else {
                &&& steps > 0
                &&& ends.len() == list@.len()
                &&& scores.len() == list@.len()
                &&& forall|j: int|
                    #![trigger ends[j]]
                    0 <= j < list@.len() ==> searched(
                        (level - 1) as nat,
                        successors,
                        heuristic,
                        score,
                        list@[j],
                        ends[j].0,
                        ends[j].1,
                    ) && call_ensures(score, (&ends[j].0,), scores[j])
                &&& first_highest(scores, i)
                &&& searched(
                    level,
                    successors,
                    heuristic,
                    score,
                    list@[i],
                    to,
                    (steps - 1) as nat,
                )
            }
    }
}

/// `scores` rates the states of `list` for a search one level below
/// `level`: each by the score of the state where that search ends from
/// it, which `ends` gives together with the number of moves to it.
pub open spec fn rated_as<N, C: Ord, FS: Fn(&N) -> Vec<N>, FH: Fn(&N) -> Option<N>, FC: Fn(&N) -> C>(
    level: nat,
    successors: FS,
    heuristic: FH,
    score: FC,
    list: Seq<N>,
    ends: Seq<(N, nat)>,
    scores: Seq<C>,
) -> bool {
    &&& level > 0
    &&& ends.len() == list.len()
    &&& scores.len() == list.len()
    &&& forall|j: int|
        #![trigger ends[j]]
        0 <= j < list.len() ==> searched(
            (level - 1) as nat,
            successors,
            heuristic,
            score,
            list[j],
            ends[j].0,
            ends[j].1,
        ) && call_ensures(score, (&ends[j].0,), scores[j])
}

/// Among the states of `list`, the one at `i` is best for a search one
/// level below `level`.
pub open spec fn best_at<N, C: Ord, FS: Fn(&N) -> Vec<N>, FH: Fn(&N) -> Option<N>, FC: Fn(&N) -> C>(
    level: nat,
    successors: FS,
    heuristic: FH,
    score: FC,
    list: Seq<N>,
    i: int,
) -> bool {
    exists|ends: Seq<(N, nat)>, scores: Seq<C>| #[trigger]
        rated_as(level, successors, heuristic, score, list, ends, scores) && first_highest(scores, i)
}

/// `to` is the successor of `from` that is best for a search one level
/// below `level`.
pub open spec fn moves_on<N, C: Ord, FS: Fn(&N) -> Vec<N>, FH: Fn(&N) -> Option<N>, FC: Fn(&N) -> C>(
    level: nat,
    successors: FS,
    heuristic: FH,
    score: FC,
    from: N,
    to: N,
) -> bool {
    exists|list: Vec<N>, i: int|
        #![trigger call_ensures(successors, (&from,), list), list@[i]]
        call_ensures(successors, (&from,), list) && 0 <= i < list@.len() && list@[i] == to
            && best_at(level, successors, heuristic, score, list@, i)
}

/// The state to which the heuristic moves is smaller than the one it
/// moves from: playing out comes to an end.
pub open spec fn heuristic_shrinks<N, FH: Fn(&N) -> Option<N>>(
    heuristic: FH,
    size: spec_fn(N) -> nat,
) -> bool {
    forall|n: N, m: N| #[trigger] call_ensures(heuristic, (&n,), Some(m)) ==> size(m) < size(n)
}

/// Every successor of a state is smaller than the state: moving on to
/// successors comes to an end.
pub open spec fn successors_shrink<N, FS: Fn(&N) -> Vec<N>>(
    successors: FS,
    size: spec_fn(N) -> nat,
) -> bool {
    forall|n: N, list: Vec<N>, j: int|
        #![trigger call_ensures(successors, (&n,), list), list@[j]]
        call_ensures(successors, (&n,), list) && 0 <= j < list@.len() ==> size(list@[j]) < size(n)
}

// One way of the heuristic after another is a way.
proof fn lemma_follows_on<N, FH: Fn(&N) -> Option<N>>(
    heuristic: FH,
    a: N,
    b: N,
    c: N,
    first: nat,
    second: nat,
)
    requires
        follows(heuristic, a, b, first),
        follows(heuristic, b, c, second),
    ensures
        follows(heuristic, a, c, first + second),
    decreases first,
{
    if first > 0 {
        let mid = choose|mid: N| #[trigger]
            call_ensures(heuristic, (&a,), Some(mid)) && follows(heuristic, mid, b, (first - 1) as nat);
        lemma_follows_on(heuristic, mid, b, c, (first - 1) as nat, second);
    }
}

/// Where the heuristic leads from `start`, taking at each state the move
/// that it gives, until it gives none.
pub fn playout<N, FH>(start: &N, heuristic: &FH) -> (end: N) where
    N: Eq + Clone + Hash,
    FH: Fn(&N) -> Option<N>,

    requires
        forall|n: N| call_requires(*heuristic, (&n,)),
        clones_are_same::<N>(),
        exists|size: spec_fn(N) -> nat| #[trigger] heuristic_shrinks(*heuristic, size),
    ensures
        played_out(*heuristic, *start, end),
{
    let ghost size = choose|size: spec_fn(N) -> nat| #[trigger] heuristic_shrinks(*heuristic, size);
    let mut cur = start.clone();
    assert(cloned(*start, cur));
    let ghost mut steps: nat = 0;
    loop
        invariant
            forall|n: N| call_requires(*heuristic, (&n,)),
            heuristic_shrinks(*heuristic, size),
            follows(*heuristic, *start, cur, steps),
        decreases size(cur),
    {
        match heuristic(&cur) {
            Some(next) => {
                proof {
                    assert(follows(*heuristic, next, next, 0));
                    assert(follows(*heuristic, cur, next, 1));
                    lemma_follows_on(*heuristic, *start, cur, next, steps, 1);
                    steps = steps + 1;
                }
                cur = next;
            },
            None => {
                return cur;
            },
        }
    }
}

/// Where the search of the given level ends from `start`.
///
/// `successors` gives the states that follow a state, `heuristic` the move
/// to play out by, and `score` rates the states in which a search ends.
pub fn nested_search<N, C, FS, FH, FC>(
    level: u8,
    start: &N,
    successors: &FS,
    heuristic: &FH,
    score: &FC,
) -> (end: N) where
    N: Eq + Clone + Hash,
    C: Ord + Clone,
    FS: Fn(&N) -> Vec<N>,
    FH: Fn(&N) -> Option<N>,
    FC: Fn(&N) -> C,

    requires
        forall|n: N| call_requires(*successors, (&n,)),
        forall|n: N| call_requires(*heuristic, (&n,)),
        forall|n: N| call_requires(*score, (&n,)),
        clones_are_same::<N>(),
        clones_are_same::<C>(),
        total_order::<C>(),
        exists|size: spec_fn(N) -> nat| #[trigger] heuristic_shrinks(*heuristic, size),
        exists|size: spec_fn(N) -> nat| #[trigger] successors_shrink(*successors, size),
    ensures
        exists|steps: nat| #[trigger]
            searched(level as nat, *successors, *heuristic, *score, *start, end, steps),
    decreases level,
{
    if level == 0 {
        let end = playout(start, heuristic);
        proof {
            assert(searched(0, *successors, *heuristic, *score, *start, end, 0));
        }
        return end;
    }
    let ghost size = choose|size: spec_fn(N) -> nat| #[trigger] successors_shrink(*successors, size);
    let mut state = start.clone();
    assert(cloned(*start, state));
    let mut terminal = false;
    // The states passed so far, the start first.
    let ghost mut passed: Seq<N> = seq![*start];

    while !terminal
        invariant
            level > 0,
            forall|n: N| call_requires(*successors, (&n,)),
            forall|n: N| call_requires(*heuristic, (&n,)),
            forall|n: N| call_requires(*score, (&n,)),
            clones_are_same::<N>(),
            clones_are_same::<C>(),
            total_order::<C>(),
            exists|size: spec_fn(N) -> nat| #[trigger] heuristic_shrinks(*heuristic, size),
            successors_shrink(*successors, size),
            passed.len() > 0,
            passed[0] == *start,
            passed.last() == state,
            // Each state passed is followed by the best of its successors.
            forall|k: int|
                0 <= k < passed.len() - 1 ==> moves_on(
                    level as nat,
                    *successors,
                    *heuristic,
                    *score,
                    #[trigger] passed[k],
                    passed[k + 1],
                ),
            terminal ==> exists|list: Vec<N>| #[trigger]
                call_ensures(*successors, (&state,), list) && list@.len() == 0,
        decreases
                if terminal {
                    0
                } else {
                    size(state) + 1
                },
    {
        let list = successors(&state);
        let mut best: Option<N> = None;
        let mut best_score: Option<C> = None;
        let ghost mut scores: Seq<C> = Seq::empty();
        let ghost mut ends: Seq<(N, nat)> = Seq::empty();
        let ghost mut best_i: int = 0;
        let mut j: usize = 0;
        while j < list.len()
            invariant
                level > 0,
                forall|n: N| call_requires(*successors, (&n,)),
                forall|n: N| call_requires(*heuristic, (&n,)),
                forall|n: N| call_requires(*score, (&n,)),
                clones_are_same::<N>(),
                clones_are_same::<C>(),
                total_order::<C>(),
                exists|size: spec_fn(N) -> nat| #[trigger] heuristic_shrinks(*heuristic, size),
                exists|size: spec_fn(N) -> nat| #[trigger] successors_shrink(*successors, size),
                j <= list@.len(),
                rated_as(
                    level as nat,
                    *successors,
                    *heuristic,
                    *score,
                    list@.take(j as int),
                    ends,
                    scores,
                ),
                scores.len() == j,
                j == 0 ==> best is None && best_score is None,
                j > 0 ==> 0 <= best_i < j && best == Some(list@[best_i]) && best_score == Some(
                    scores[best_i],
                ),
                forall|k: int| 0 <= k < j ==> !key_lt(scores[best_i], #[trigger] scores[k]),
                forall|k: int| 0 <= k < best_i ==> key_lt(#[trigger] scores[k], scores[best_i]),
            decreases list@.len() - j,
        {
            let s = list[j].clone();
            assert(cloned(list@[j as int], s));
            let below = level - 1;
            let end_state = nested_search(below, &s, successors, heuristic, score);
            let state_score = score(&end_state);
            let ghost before = scores;
            proof {
                let steps = choose|steps: nat| #[trigger]
                    searched(below as nat, *successors, *heuristic, *score, s, end_state, steps);
                assert(below as nat == (level as nat - 1) as nat);
                let seen = ends;
                ends = ends.push((end_state, steps));
                scores = scores.push(state_score);
                let shown = list@.take(j + 1);
                assert forall|k: int| #![trigger ends[k]] 0 <= k < shown.len() implies searched(
                    (level as nat - 1) as nat,
                    *successors,
                    *heuristic,
                    *score,
                    shown[k],
                    ends[k].0,
                    ends[k].1,
                ) && call_ensures(*score, (&ends[k].0,), scores[k]) by {
                    if k < j {
                        assert(list@.take(j as int)[k] == shown[k]);
                        assert(scores[k] == before[k] && ends[k] == seen[k]);
                        assert(searched(
                            (level as nat - 1) as nat,
                            *successors,
                            *heuristic,
                            *score,
                            list@.take(j as int)[k],
                            seen[k].0,
                            seen[k].1,
                        ));
                    }
                }
            }
            let better = match &best_score {
                Some(b) => match compare(&state_score, b) {
                    Rel::Greater => true,
                    _ => false,
                },
                None => true,
            };
            if better {
                proof {
                    if j > 0 {
                        let old_best = before[best_i];
                        assert forall|k: int| 0 <= k < j + 1 implies !key_lt(
                            state_score,
                            #[trigger] scores[k],
                        ) by {
                            if k < j {
                                assert(scores[k] == before[k]);
                                if key_lt(state_score, before[k]) {
                                    lemma_lt_transitive(old_best, state_score, before[k]);
                                }
                            } else {
                                crate::misc::key_order::lemma_lt_irreflexive(state_score);
                            }
                        }
                        assert forall|k: int| 0 <= k < j implies key_lt(
                            #[trigger] scores[k],
                            state_score,
                        ) by {
                            assert(scores[k] == before[k]);
                            crate::misc::key_order::lemma_lt_total(before[k], old_best);
                            if before[k] != old_best {
                                lemma_lt_transitive(before[k], old_best, state_score);
                            }
                        }
                    } else {
                        crate::misc::key_order::lemma_lt_irreflexive(state_score);
                    }
                    best_i = j as int;
                }
                best = Some(s);
                best_score = Some(state_score);
            } else {
                proof {
                    assert forall|k: int| 0 <= k < j + 1 implies !key_lt(
                        scores[best_i],
                        #[trigger] scores[k],
                    ) by {
                        if k < j {
                            assert(scores[k] == before[k]);
                        }
                    }
                    assert forall|k: int| 0 <= k < best_i implies key_lt(
                        #[trigger] scores[k],
                        scores[best_i],
                    ) by {
                        assert(scores[k] == before[k]);
                    }
                }
            }
            j += 1;
        }
        proof {
            assert(list@.take(j as int) =~= list@);
        }

        if list.len() == 0 {
            terminal = true;
        } else {
            let next = best.clone().unwrap();
            assert(cloned(best.unwrap(), next));
            proof {
                assert(rated_as(level as nat, *successors, *heuristic, *score, list@, ends, scores));
                assert(first_highest(scores, best_i));
                assert(best_at(level as nat, *successors, *heuristic, *score, list@, best_i));
                let off = passed;
                passed = passed.push(next);
                assert forall|k: int| 0 <= k < passed.len() - 1 implies moves_on(
                    level as nat,
                    *successors,
                    *heuristic,
                    *score,
                    #[trigger] passed[k],
                    passed[k + 1],
                ) by {
                    if k < off.len() - 1 {
                        assert(passed[k] == off[k] && passed[k + 1] == off[k + 1]);
                    } else {
                        assert(call_ensures(*successors, (&passed[k],), list) && list@[best_i]
                            == passed[k + 1]);
                    }
                }
                assert(size(list@[best_i]) < size(state));
            }
            state = next;
        }
    }
    proof {
        lemma_passed(level as nat, *successors, *heuristic, *score, passed, 0);
    }
    state
}

// From each of the states passed, the search leads to the last of them.
proof fn lemma_passed<N, C: Ord, FS: Fn(&N) -> Vec<N>, FH: Fn(&N) -> Option<N>, FC: Fn(&N) -> C>(
    level: nat,
    successors: FS,
    heuristic: FH,
    score: FC,
    passed: Seq<N>,
    k: int,
)
    requires
        level > 0,
        0 <= k < passed.len(),
        forall|k: int|
            0 <= k < passed.len() - 1 ==> moves_on(
                level,
                successors,
                heuristic,
                score,
                #[trigger] passed[k],
                passed[k + 1],
            ),
        exists|list: Vec<N>| #[trigger]
            call_ensures(successors, (&passed.last(),), list) && list@.len() == 0,
    ensures
        searched(
            level,
            successors,
            heuristic,
            score,
            passed[k],
            passed.last(),
            (passed.len() - 1 - k) as nat,
        ),
    decreases passed.len() - k,
{
    if k == passed.len() - 1 {
        let none = choose|list: Vec<N>| #[trigger]
            call_ensures(successors, (&passed.last(),), list) && list@.len() == 0;
        let no_scores = Seq::<C>::empty();
        let no_ends = Seq::<(N, nat)>::empty();
        assert(call_ensures(successors, (&passed[k],), none) && no_ends.len() == 0 && !first_highest(
            no_scores,
            0,
        ));
        assert(searched(level, successors, heuristic, score, passed[k], passed.last(), 0));
    } else {
        lemma_passed(level, successors, heuristic, score, passed, k + 1);
        assert(moves_on(level, successors, heuristic, score, passed[k], passed[k + 1]));
        let (list, i) = choose|list: Vec<N>, i: int|
            #![trigger call_ensures(successors, (&passed[k],), list), list@[i]]
            call_ensures(successors, (&passed[k],), list) && 0 <= i < list@.len() && list@[i]
                == passed[k + 1] && best_at(level, successors, heuristic, score, list@, i);
        let (ends, scores) = choose|ends: Seq<(N, nat)>, scores: Seq<C>| #[trigger]
            rated_as(level, successors, heuristic, score, list@, ends, scores) && first_highest(scores, i);
        let steps = (passed.len() - 1 - k) as nat;
        assert(call_ensures(successors, (&passed[k],), list) && ends.len() == list@.len()
            && first_highest(scores, i));
        assert(searched(level, successors, heuristic, score, passed[k], passed.last(), steps));
    }
}

} // verus!
