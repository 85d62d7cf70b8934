//! Beam search: a breadth-first search that keeps only the best states of
//! each layer.

use crate::misc::key_order::{
    descending, key_lt, lemma_lt_total, lemma_lt_transitive, total_order,
};
use vstd::prelude::*;

verus! {

/// A beam search over states with scores.
#[verifier::reject_recursive_types(N)]
#[verifier::reject_recursive_types(SC)]
#[verifier::reject_recursive_types(S)]
pub struct BeamSearch<N, SC, S> where SC: Ord + Clone, S: Fn(&N) -> Vec<(N, SC)> {
    beam_size: usize,
    successors: S,
    cur: Vec<(N, SC)>,
    next: Vec<(N, SC)>,
}

/// Around position `index` the entries are parted by score: no entry
/// before it scores lower than the one there, and none after it higher.
pub open spec fn parted_at<N, SC: Ord>(entries: Seq<(N, SC)>, index: usize) -> bool {
    &&& forall|i: int| 0 <= i < index ==> !key_lt((#[trigger] entries[i]).1, entries[index as int].1)
    &&& forall|i: int|
        index < i < entries.len() ==> !key_lt(entries[index as int].1, (#[trigger] entries[i]).1)
}

/// `kept` are `count` of the entries of `all` such that no entry left out
/// scores higher than one that is kept.
pub open spec fn best_of<N, SC: Ord>(all: Seq<(N, SC)>, count: nat, kept: Seq<(N, SC)>) -> bool {
    kept.len() == count && exists|rest: Seq<(N, SC)>| #[trigger]
        (kept + rest).to_multiset() == all.to_multiset() && forall|i: int, j: int|
            0 <= i < kept.len() && 0 <= j < rest.len() ==> !key_lt(
                (#[trigger] kept[i]).1,
                (#[trigger] rest[j]).1,
            )
}

/// The states that make the next layer: all that were found if they fit
/// the beam, and else the best of them, as many as fit.
pub open spec fn layer_of<N, SC: Ord>(found: Seq<(N, SC)>, beam_size: nat, layer: Seq<(N, SC)>) -> bool {
    if found.len() > beam_size {
        best_of(found, beam_size, layer)
    } else {
        layer == found
    }
}

/// Brings the entries into an order in which they are parted by score
/// around position `index`.
///
/// Calls `slice::select_nth_unstable_by` with a comparison that puts
/// higher scores first. That reorders the slice so that the entry at
/// `index` is where sorting would put it, with nothing that sorts after
/// it before it and nothing that sorts before it after it. It panics for
/// an `index` beyond the slice.
#[verifier::external_body]
fn select_best<N, SC: Ord>(entries: &mut Vec<(N, SC)>, index: usize)
    requires
        index < old(entries)@.len(),
        total_order::<SC>(),
    ensures
        final(entries)@.to_multiset() == old(entries)@.to_multiset(),
        parted_at(final(entries)@, index),
{
    entries.select_nth_unstable_by(index, |a, b| descending(a, b));
}

impl<N, SC, S> BeamSearch<N, SC, S> where SC: Ord + Clone, S: Fn(&N) -> Vec<(N, SC)> {
    /// The width of the beam: how many states of a layer are kept.
    pub closed spec fn width(&self) -> nat {
        self.beam_size as nat
    }

    /// The states of the layer that are still to be visited, the next one
    /// last.
    pub closed spec fn waiting(&self) -> Seq<(N, SC)> {
        self.cur@
    }

    /// The successors found so far, of which the next layer is made.
    pub closed spec fn found(&self) -> Seq<(N, SC)> {
        self.next@
    }

    /// The function that gives the successors of a state with their scores.
    pub closed spec fn expands_by(&self) -> S {
        self.successors
    }

    /// A search that starts with the states of `start`, of which the last
    /// is visited first, and keeps `beam_size` states of each later layer.
    pub fn new(beam_size: usize, start: Vec<(N, SC)>, successors: S) -> (search: Self)
        requires
            beam_size > 0,
        ensures
            search.width() == beam_size,
            search.waiting() == start@,
            search.found() == Seq::<(N, SC)>::empty(),
            search.expands_by() == successors,
    {
        let mut start = start;
        let mut cur = Vec::with_capacity(beam_size);
        let next = Vec::with_capacity(beam_size);
        cur.append(&mut start);
        Self { cur, next, beam_size, successors }
    }

    /// The width of the beam.
    pub fn beam_size(&self) -> (n: usize)
        ensures
            n == self.width(),
    {
        self.beam_size
    }

    /// The state visited next, with its score, if any is left.
    ///
    /// While states of the layer wait, the last of them is visited and
    /// its successors are added to those found. When none waits, the
    /// next layer is made of what was found: the best by score, as many
    /// as the beam is wide. The search ends when that layer is empty.
    pub fn next(&mut self) -> (r: Option<(N, SC)>)
        requires
            forall|n: N| call_requires(old(self).expands_by(), (&n,)),
            total_order::<SC>(),
        ensures
            final(self).visited_from(old(self), r),
    {
        let ghost layer;
        if self.cur.len() == 0 {
            // The layer is through: the next one is made of what was found.
            let ghost all = self.next@;
            if self.next.len() > self.beam_size {
                select_best(&mut self.next, self.beam_size);
                let ghost sorted = self.next@;
                proof {
                    vstd::seq_lib::to_multiset_len(all);
                    vstd::seq_lib::to_multiset_len(sorted);
                }
                self.next.truncate(self.beam_size);
                proof {
                    lemma_best_kept(all, sorted, self.beam_size);
                }
            }
            std::mem::swap(&mut self.cur, &mut self.next);
            proof {
                layer = self.cur@;
            }
            if self.cur.len() == 0 {
                assert(Self::layer_before(old(self).waiting(), old(self).found(), old(self).width(), layer));
                return None;
            }
        } else {
            proof {
                layer = self.cur@;
            }
        }
        let ghost before = self.next@;
        let (cur, score) = self.cur.pop().unwrap();
        assert(self.successors == old(self).expands_by());
        assert(call_requires(old(self).expands_by(), (&cur,)));
        let successors = &self.successors;
        let mut list = successors(&cur);
        let ghost listed = list;
        self.next.append(&mut list);
        proof {
            assert(Self::layer_before(old(self).waiting(), old(self).found(), old(self).width(), layer));
            assert(call_ensures(old(self).expands_by(), (&cur,), listed));
        }
        Some((cur, score))
    }

    /// This search is `before` after a call of `next` that gave `r`: the
    /// last state of the layer that was being visited, whose successors
    /// were added to what was found, or nothing where that layer was empty.
    pub open spec fn visited_from(&self, before: &Self, r: Option<(N, SC)>) -> bool {
        &&& self.width() == before.width()
        &&& self.expands_by() == before.expands_by()
        &&& exists|layer: Seq<(N, SC)>|
            {
                &&& #[trigger] Self::layer_before(before.waiting(), before.found(), before.width(), layer)
                &&& match r {
                    None => layer.len() == 0 && self.waiting().len() == 0 && self.found().len() == 0,
                    Some(visited) => layer.len() > 0 && visited == layer.last() && self.waiting()
                        == layer.drop_last() && exists|list: Vec<(N, SC)>| #[trigger]
                        call_ensures(before.expands_by(), (&visited.0,), list) && self.found()
                            == Self::found_before(before.waiting(), before.found()) + list@,
                }
            }
    }

    /// The layer that is being visited: the states that wait, or, when
    /// none waits, the layer made of what was found.
    pub open spec fn layer_before(
        waiting: Seq<(N, SC)>,
        found: Seq<(N, SC)>,
        width: nat,
        layer: Seq<(N, SC)>,
    ) -> bool {
        if waiting.len() > 0 {
            layer == waiting
        } else {
            layer_of(found, width, layer)
        }
    }

    /// What was found for the layer after the one that is being visited.
    pub open spec fn found_before(waiting: Seq<(N, SC)>, found: Seq<(N, SC)>) -> Seq<(N, SC)> {
        if waiting.len() > 0 {
            found
        } else {
            Seq::empty()
        }
    }
}

// Of entries parted by score around a position, those before it are the
// best.
proof fn lemma_best_kept<N, SC: Ord>(all: Seq<(N, SC)>, sorted: Seq<(N, SC)>, count: usize)
    requires
        total_order::<SC>(),
        count < sorted.len(),
        sorted.to_multiset() == all.to_multiset(),
        parted_at(sorted, count),
    ensures
        best_of(all, count as nat, sorted.take(count as int)),
{
    let kept = sorted.take(count as int);
    let rest = sorted.skip(count as int);
    assert(kept + rest =~= sorted);
    let pivot = sorted[count as int].1;
    assert forall|i: int, j: int| 0 <= i < kept.len() && 0 <= j < rest.len() implies !key_lt(
        (#[trigger] kept[i]).1,
        (#[trigger] rest[j]).1,
    ) by {
        let a = kept[i].1;
        let b = rest[j].1;
        assert(kept[i] == sorted[i]);
        assert(rest[j] == sorted[count + j]);
        assert(!key_lt(a, pivot));
        if j == 0 {
            crate::misc::key_order::lemma_lt_irreflexive(pivot);
        }
        assert(!key_lt(pivot, b));
        if key_lt(a, b) {
            lemma_lt_total(pivot, a);
            if pivot != a {
                lemma_lt_transitive(pivot, a, b);
            }
        }
    }
}

} // verus!
