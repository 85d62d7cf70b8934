//! Depth-first search, one state at a time.

use vstd::prelude::*;

verus! {

/// A depth-first search: the states that are still to be visited, the next
/// one to visit last.
pub struct DFS<N: Clone> {
    stack: Vec<N>,
}

/// `result` is `base` followed by a copy of each of `items`, in their order.
pub open spec fn extended_by<N: Clone>(base: Seq<N>, items: Seq<N>, result: Seq<N>) -> bool {
    &&& result.len() == base.len() + items.len()
    &&& forall|i: int| 0 <= i < base.len() ==> result[i] == base[i]
    &&& forall|i: int| 0 <= i < items.len() ==> cloned(items[i], #[trigger] result[base.len() + i])
}

impl<N: Clone> View for DFS<N> {
    type V = Seq<N>;

    /// The states still to be visited; the last is visited next.
    closed spec fn view(&self) -> Seq<N> {
        self.stack@
    }
}

impl<N: Clone> DFS<N> {
    /// A search that visits `start` first.
    pub fn new(start: N) -> (dfs: Self)
        ensures
            dfs@.len() == 1,
            cloned(start, dfs@[0]),
    {
        let mut stack = Vec::new();
        stack.push(start.clone());
        Self { stack }
    }

    /// The state visited next, if any is left. Its successors are put
    /// ahead of all states that were waiting, the last of them first.
    pub fn next<S>(&mut self, mut successors: S) -> (r: Option<N>) where S: FnMut(&N) -> Vec<N>
        requires
            forall|n: N| call_requires(successors, (&n,)),
        ensures
            match r {
                None => old(self)@.len() == 0 && final(self)@ == old(self)@,
                Some(cur) => old(self)@.len() > 0 && cur == old(self)@.last() && exists|found: Vec<N>|
                    #[trigger] call_ensures(successors, (&cur,), found) && extended_by(
                        old(self)@.drop_last(),
                        found@,
                        final(self)@,
                    ),
            },
    {
        match self.stack.pop() {
            Some(cur) => {
                let ghost base = self.stack@;
                let found = successors(&cur);
                let mut i: usize = 0;
                while i < found.len()
                    invariant
                        i <= found@.len(),
                        extended_by(base, found@.take(i as int), self.stack@),
                    decreases found@.len() - i,
                {
                    let ghost before = self.stack@;
                    let next = found[i].clone();
                    self.stack.push(next);
                    i += 1;
                    proof {
                        assert forall|j: int| 0 <= j < i implies cloned(
                            found@.take(i as int)[j],
                            #[trigger] self.stack@[base.len() + j],
                        ) by {
                            if j < i - 1 {
                                assert(found@.take(i - 1)[j] == found@[j]);
                                assert(self.stack@[base.len() + j] == before[base.len() + j]);
                            }
                        }
                    }
                }
                proof {
                    assert(found@.take(i as int) =~= found@);
                }
                Some(cur)
            },
            None => None,
        }
    }
}

impl<N: Clone> std::ops::Deref for DFS<N> {
    type Target = Vec<N>;

    /// The states still to be visited.
    fn deref(&self) -> (stack: &Vec<N>)
        ensures
            stack@ == self@,
    {
        &self.stack
    }
}

} // verus!
