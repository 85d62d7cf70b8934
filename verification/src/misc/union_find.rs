//! Union-find whose elements are named by indices of a type of their own.

use crate::math::union_find::UnionFind as Forest;
use vstd::prelude::*;

verus! {

/// The index of an element of a [`UnionFind`].
#[derive(Clone, Copy, PartialEq, Eq, Hash, Debug, Structural)]
pub struct DisjointSetIndex(usize);

impl View for DisjointSetIndex {
    type V = int;

    /// The number of the element.
    closed spec fn view(&self) -> int {
        self.0 as int
    }
}

impl DisjointSetIndex {
    /// The number of the element, as a machine word.
    pub closed spec fn number(self) -> usize {
        self.0
    }

    /// The number of the element.
    pub fn to_usize(self) -> (n: usize)
        ensures
            n == self@,
            n == self.number(),
    {
        self.0
    }

    /// Indices are the same where their numbers are.
    pub proof fn lemma_same_number(self, other: Self)
        ensures
            self@ == other@ <==> self == other,
    {
    }
}

impl From<DisjointSetIndex> for usize {
    /// The number of the element.
    fn from(value: DisjointSetIndex) -> (n: usize) {
        value.0
    }
}

impl vstd::std_specs::convert::FromSpecImpl<DisjointSetIndex> for usize {
    open spec fn obeys_from_spec() -> bool {
        true
    }

    open spec fn from_spec(value: DisjointSetIndex) -> usize {
        value.number()
    }
}

/// Some index of the list has the number `v`.
pub open spec fn among(list: Seq<DisjointSetIndex>, v: int) -> bool {
    exists|i: int| 0 <= i < list.len() && (#[trigger] list[i])@ == v
}

/// A set of elements, named by indices, split into disjoint sets.
pub struct UnionFind {
    forest: Forest,
}

impl UnionFind {
    /// The sets, over the numbers of the elements.
    pub closed spec fn sets(&self) -> Forest {
        self.forest
    }

    /// The sets are well formed.
    pub open spec fn wf(&self) -> bool {
        self.sets().wf()
    }

    /// A structure without elements, with room for `capacity` of them.
    pub fn with_capacity(capacity: usize) -> (uf: Self)
        ensures
            uf.wf(),
            uf.sets().len() == 0,
    {
        UnionFind { forest: Forest::with_capacity(capacity) }
    }

    /// Adds an element in a set of its own and gives its index.
    pub fn add_set(&mut self) -> (index: DisjointSetIndex)
        requires
            old(self).wf(),
        ensures
            final(self).wf(),
            index@ == old(self).sets().len(),
            final(self).sets().len() == old(self).sets().len() + 1,
            final(self).sets().root_of(index@) == index@,
            final(self).sets().set_size(index@) == 1,
            forall|x: int|
                0 <= x < old(self).sets().len() ==> final(self).sets().root_of(x) == old(
                    self,
                ).sets().root_of(x) && final(self).sets().set_size(x) == old(self).sets().set_size(x),
    {
        DisjointSetIndex(self.forest.make_set())
    }

    /// Adds `n` elements, each in a set of its own, and gives their
    /// indices in the order in which they were added.
    pub fn extend(&mut self, n: usize) -> (added: Vec<DisjointSetIndex>)
        requires
            old(self).wf(),
        ensures
            final(self).wf(),
            final(self).sets().len() == old(self).sets().len() + n,
            added@.len() == n,
            forall|i: int| 0 <= i < n ==> (#[trigger] added@[i])@ == old(self).sets().len() + i,
            forall|x: int|
                old(self).sets().len() <= x < final(self).sets().len() ==> final(self).sets().root_of(x)
                    == x && final(self).sets().set_size(x) == 1,
            forall|x: int|
                0 <= x < old(self).sets().len() ==> final(self).sets().root_of(x) == old(
                    self,
                ).sets().root_of(x) && final(self).sets().set_size(x) == old(self).sets().set_size(x),
    {
        let mut added: Vec<DisjointSetIndex> = Vec::new();
        let ghost start = self.sets().len();
        let mut i: usize = 0;
        while i < n
            invariant
                i <= n,
                self.wf(),
                start == old(self).sets().len(),
                self.sets().len() == start + i,
                added@.len() == i,
                forall|j: int| 0 <= j < i ==> (#[trigger] added@[j])@ == start + j,
                forall|x: int|
                    start <= x < start + i ==> self.sets().root_of(x) == x && self.sets().set_size(x) == 1,
                forall|x: int|
                    0 <= x < start ==> self.sets().root_of(x) == old(self).sets().root_of(x)
                        && self.sets().set_size(x) == old(self).sets().set_size(x),
            decreases n - i,
        {
            let index = self.add_set();
            added.push(index);
            i += 1;
        }
        added
    }

    /// The size of the set of `x`, if `x` is an element.
    pub fn size_of_set(&mut self, x: DisjointSetIndex) -> (r: Option<usize>)
        requires
            old(self).wf(),
        ensures
            *final(self) == *old(self),
            x@ >= old(self).sets().len() ==> r is None,
            x@ < old(self).sets().len() ==> r is Some && r.unwrap() == old(self).sets().set_size(x@),
    {
        self.forest.size_of_set(x.0)
    }

    /// The roots of all sets, each once, in increasing order.
    pub fn roots(&mut self) -> (r: Vec<DisjointSetIndex>)
        requires
            old(self).wf(),
        ensures
            *final(self) == *old(self),
            forall|i: int, j: int| 0 <= i < j < r@.len() ==> (#[trigger] r@[i])@ < (#[trigger] r@[j])@,
            forall|i: int|
                0 <= i < r@.len() ==> 0 <= (#[trigger] r@[i])@ < old(self).sets().len() && old(
                    self,
                ).sets().root_of(r@[i]@) == r@[i]@,
            forall|x: int|
                0 <= x < old(self).sets().len() ==> among(r@, #[trigger] old(self).sets().root_of(x)),
    {
        let mut result: Vec<DisjointSetIndex> = Vec::new();
        let n = self.forest.count();
        let mut x: usize = 0;
        while x < n
            invariant
                x <= n,
                n == self.sets().len(),
                self.wf(),
                *self == *old(self),
                forall|i: int, j: int|
                    0 <= i < j < result@.len() ==> (#[trigger] result@[i])@ < (#[trigger] result@[j])@,
                forall|i: int|
                    0 <= i < result@.len() ==> 0 <= (#[trigger] result@[i])@ < x
                        && self.sets().root_of(result@[i]@) == result@[i]@,
                forall|y: int|
                    0 <= y < x && #[trigger] self.sets().root_of(y) == y ==> among(result@, y),
            decreases n - x,
        {
            let root = self.forest.find(x);
            if root.unwrap() == x {
                let ghost before = result@;
                result.push(DisjointSetIndex(x));
                proof {
                    assert forall|y: int|
                        0 <= y < x + 1 && #[trigger] self.sets().root_of(y) == y implies among(
                        result@,
                        y,
                    ) by {
                        if y < x {
                            assert(among(before, y));
                            let i = choose|i: int| 0 <= i < before.len() && (#[trigger] before[i])@ == y;
                            assert(result@[i]@ == y);
                        } else {
                            assert(result@[before.len() as int]@ == y);
                        }
                    }
                }
            }
            x += 1;
        }
        proof {
            assert forall|y: int| 0 <= y < n implies among(
                result@,
                #[trigger] self.sets().root_of(y),
            ) by {
                self.sets().lemma_root(y);
                let r = self.sets().root_of(y);
                assert(self.sets().root_of(r) == r);
            }
        }
        result
    }

    /// The root of the set of `x`, if `x` is an element.
    pub fn find(&mut self, x: DisjointSetIndex) -> (r: Option<DisjointSetIndex>)
        requires
            old(self).wf(),
        ensures
            *final(self) == *old(self),
            x@ >= old(self).sets().len() ==> r is None,
            x@ < old(self).sets().len() ==> r is Some && r.unwrap()@ == old(self).sets().root_of(x@),
    {
        match self.forest.find(x.0) {
            Some(root) => Some(DisjointSetIndex(root)),
            None => None,
        }
    }

    /// Merges the sets of `x` and `y`, the smaller into the larger. Both
    /// must be elements.
    pub fn union(&mut self, x: DisjointSetIndex, y: DisjointSetIndex)
        requires
            old(self).wf(),
            x@ < old(self).sets().len(),
            y@ < old(self).sets().len(),
        ensures
            final(self).wf(),
            final(self).sets().merged_from(&old(self).sets(), x@, y@),
    {
        let _ = self.forest.union(x.0, y.0);
    }
}

impl Default for UnionFind {
    fn default() -> (uf: Self)
        ensures
            uf.wf(),
            uf.sets().len() == 0,
    {
        UnionFind { forest: Forest::new() }
    }
}

} // verus!
