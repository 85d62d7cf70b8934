//! Breadth-first search, one state at a time.

use crate::search::dfs::extended_by;
use std::collections::VecDeque;
use vstd::prelude::*;

verus! {

/// A breadth-first search: the states that are still to be visited, the
/// next one to visit first.
pub struct BrFS<N: Clone> {
    queue: VecDeque<N>,
}

impl<N: Clone> View for BrFS<N> {
    type V = Seq<N>;

    /// The states still to be visited; the first is visited next.
    closed spec fn view(&self) -> Seq<N> {
        self.queue@
    }
}

impl<N: Clone> BrFS<N> {
    /// A search that visits the states of `start` first, in their order.
    pub fn new(start: Vec<N>) -> (brfs: Self)
        ensures
            extended_by(Seq::<N>::empty(), start@, brfs@),
    {
        let mut queue = VecDeque::new();
        let mut i: usize = 0;
        while i < start.len()
            invariant
                i <= start@.len(),
                extended_by(Seq::<N>::empty(), start@.take(i as int), queue@),
            decreases start@.len() - i,
        {
            let ghost before = queue@;
            let s = start[i].clone();
            queue.push_back(s);
            i += 1;
            proof {
                assert forall|j: int| 0 <= j < i implies cloned(
                    start@.take(i as int)[j],
                    #[trigger] queue@[0 + j],
                ) by {
                    if j < i - 1 {
                        assert(start@.take(i - 1)[j] == start@[j]);
                        assert(queue@[0 + j] == before[0 + j]);
                    }
                }
            }
        }
        proof {
            assert(start@.take(i as int) =~= start@);
        }
        Self { queue }
    }

    /// The state visited next, if any is left. Its successors are put
    /// behind all states that were waiting, in their order.
    pub fn next<S>(&mut self, mut successors: S) -> (r: Option<N>) where S: FnMut(&N) -> Vec<N>
        requires
            forall|n: N| call_requires(successors, (&n,)),
        ensures
            match r {
                None => old(self)@.len() == 0 && final(self)@ == old(self)@,
                Some(cur) => old(self)@.len() > 0 && cur == old(self)@.first() && exists|found: Vec<N>|
                    #[trigger] call_ensures(successors, (&cur,), found) && extended_by(
                        old(self)@.drop_first(),
                        found@,
                        final(self)@,
                    ),
            },
    {
        match self.queue.pop_front() {
            Some(cur) => {
                let ghost base = self.queue@;
                let found = successors(&cur);
                let mut i: usize = 0;
                while i < found.len()
                    invariant
                        i <= found@.len(),
                        extended_by(base, found@.take(i as int), self.queue@),
                    decreases found@.len() - i,
                {
                    let ghost before = self.queue@;
                    let next = found[i].clone();
                    self.queue.push_back(next);
                    i += 1;
                    proof {
                        assert forall|j: int| 0 <= j < i implies cloned(
                            found@.take(i as int)[j],
                            #[trigger] self.queue@[base.len() + j],
                        ) by {
                            if j < i - 1 {
                                assert(found@.take(i - 1)[j] == found@[j]);
                                assert(self.queue@[base.len() + j] == before[base.len() + j]);
                            }
                        }
                    }
                }
                proof {
                    assert(found@.take(i as int) =~= found@);
                }
                Some(cur)
            },
            None => None,
        }
    }
}

impl<N: Clone> std::ops::Deref for BrFS<N> {
    type Target = VecDeque<N>;

    /// The states still to be visited.
    fn deref(&self) -> (queue: &VecDeque<N>)
        ensures
            queue@ == self@,
    {
        &self.queue
    }
}

} // verus!
