//! Union-find, also known as a disjoint-set forest.
//!
//! The structure keeps a set of elements split into disjoint sets, tells
//! whether two elements are in the same set, and merges two sets. Each set
//! is a tree of parent links; the root of the tree names the set.

use std::collections::HashSet;
use vstd::prelude::*;

verus! {

/// A set of elements, numbered from 0, split into disjoint sets.
pub struct UnionFind {
    parents: Vec<usize>,
    sizes: Vec<usize>,
    // How high each element stands in its tree: parents stand higher than
    // their children, and all stand below `limit`.
    rank: Ghost<Seq<nat>>,
    limit: Ghost<nat>,
}

impl UnionFind {
    /// The number of elements.
    pub closed spec fn len(&self) -> nat {
        self.parents@.len()
    }

    /// The parent of element `x`; a root is its own parent.
    pub closed spec fn parent_of(&self, x: int) -> int {
        self.parents@[x] as int
    }

    // The parent links form trees.
    spec fn linked(&self) -> bool {
        &&& self.sizes@.len() == self.parents@.len()
        &&& self.rank@.len() == self.parents@.len()
        &&& forall|i: int|
            0 <= i < self.parents@.len() ==> {
                &&& (#[trigger] self.parents@[i]) < self.parents@.len()
                &&& (self.parents@[i] != i ==> self.rank@[self.parents@[i] as int] > self.rank@[i])
            }
        &&& forall|i: int| 0 <= i < self.rank@.len() ==> (#[trigger] self.rank@[i]) < self.limit@
    }

    // Where the parent links lead from `x`.
    spec fn climb(&self, x: int) -> int
        decreases self.limit@ - self.rank@[x],
        when self.linked() && 0 <= x < self.parents@.len()
    {
        if self.parents@[x] == x {
            x
        } else {
            self.climb(self.parents@[x] as int)
        }
    }

    /// The root of the tree that holds `x`: the element that names the set
    /// of `x`.
    pub closed spec fn root_of(&self, x: int) -> int {
        self.climb(x)
    }

    /// The number of elements below `n` whose set is named by `r`.
    pub closed spec fn members(&self, r: int, n: nat) -> nat
        decreases n,
    {
        if n == 0 {
            0
        } else {
            self.members(r, (n - 1) as nat) + if self.root_of(n - 1) == r {
                1nat
            } else {
                0nat
            }
        }
    }

    /// The parent links form trees, and every root knows the size of its set.
    pub closed spec fn wf(&self) -> bool {
        &&& self.linked()
        &&& forall|r: int|
            0 <= r < self.parents@.len() && self.parents@[r] == r ==> (#[trigger] self.sizes@[r])
                == self.members(r, self.parents@.len())
    }

    /// `a` and `b` are in the same set.
    pub open spec fn same_set(&self, a: int, b: int) -> bool {
        self.root_of(a) == self.root_of(b)
    }

    /// The number of elements in the set of `x`.
    pub open spec fn set_size(&self, x: int) -> nat {
        self.members(self.root_of(x), self.len())
    }

    /// This structure is `before` with the sets of `x` and `y` made one:
    /// two elements are in the same set if they were, or if one was with
    /// `x` and the other with `y`, and the new set has the size of both.
    pub open spec fn merged_from(&self, before: &Self, x: int, y: int) -> bool {
        &&& self.len() == before.len()
        &&& forall|a: int, b: int|
            0 <= a < before.len() && 0 <= b < before.len() ==> (#[trigger] self.same_set(a, b)
                <==> before.same_set(a, b) || (before.same_set(a, x) && before.same_set(b, y)) || (
            before.same_set(a, y) && before.same_set(b, x)))
        &&& forall|a: int|
            0 <= a < before.len() ==> (#[trigger] self.set_size(a)) == if before.same_set(x, y) || !(
            before.same_set(a, x) || before.same_set(a, y)) {
                before.set_size(a)
            } else {
                before.set_size(x) + before.set_size(y)
            }
    }

    /// The root of an element is an element, and is its own root and its
    /// own parent.
    pub proof fn lemma_root(&self, x: int)
        requires
            self.wf(),
            0 <= x < self.len(),
        ensures
            0 <= self.root_of(x) < self.len(),
            self.root_of(self.root_of(x)) == self.root_of(x),
            self.parent_of(self.root_of(x)) == self.root_of(x),
            self.root_of(self.parent_of(x)) == self.root_of(x),
    {
        self.lemma_climb(x);
    }

    proof fn lemma_climb(&self, x: int)
        requires
            self.linked(),
            0 <= x < self.parents@.len(),
        ensures
            0 <= self.climb(x) < self.parents@.len(),
            self.climb(self.climb(x)) == self.climb(x),
            self.parents@[self.climb(x)] == self.climb(x),
            self.climb(self.parents@[x] as int) == self.climb(x),
        decreases self.limit@ - self.rank@[x],
    {
        if self.parents@[x] != x {
            self.lemma_climb(self.parents@[x] as int);
        }
    }

    // Two different roots share no member.
    proof fn lemma_members_apart(&self, a: int, b: int, n: nat)
        requires
            a != b,
        ensures
            self.members(a, n) + self.members(b, n) <= n,
        decreases n,
    {
        if n > 0 {
            self.lemma_members_apart(a, b, (n - 1) as nat);
        }
    }

    // What names no element below `n` has no member below `n`.
    proof fn lemma_members_none(&self, r: int, n: nat)
        requires
            forall|i: int| 0 <= i < n ==> self.root_of(i) != r,
        ensures
            self.members(r, n) == 0,
        decreases n,
    {
        if n > 0 {
            self.lemma_members_none(r, (n - 1) as nat);
        }
    }

    // Structures whose roots agree below `n` count the same members.
    proof fn lemma_members_same(&self, other: &Self, r: int, n: nat)
        requires
            forall|i: int| 0 <= i < n ==> (self.root_of(i) == r <==> other.root_of(i) == r),
        ensures
            self.members(r, n) == other.members(r, n),
        decreases n,
    {
        if n > 0 {
            self.lemma_members_same(other, r, (n - 1) as nat);
        }
    }

    // After the set named `loser` went into the set named `winner`, the
    // members of both are members of `winner`.
    proof fn lemma_members_joined(&self, other: &Self, winner: int, loser: int, n: nat)
        requires
            winner != loser,
            forall|i: int|
                0 <= i < n ==> other.root_of(i) == if self.root_of(i) == loser {
                    winner
                } else {
                    self.root_of(i)
                },
        ensures
            other.members(winner, n) == self.members(winner, n) + self.members(loser, n),
        decreases n,
    {
        if n > 0 {
            self.lemma_members_joined(other, winner, loser, (n - 1) as nat);
        }
    }

    /// A structure without elements.
    pub fn new() -> (uf: Self)
        ensures
            uf.wf(),
            uf.len() == 0,
    {
        UnionFind { parents: Vec::new(), sizes: Vec::new(), rank: Ghost(Seq::empty()), limit: Ghost(0) }
    }

    /// A structure without elements, with room for `capacity` of them.
    pub fn with_capacity(capacity: usize) -> (uf: Self)
        ensures
            uf.wf(),
            uf.len() == 0,
    {
        UnionFind {
            parents: Vec::with_capacity(capacity),
            sizes: Vec::with_capacity(capacity),
            rank: Ghost(Seq::empty()),
            limit: Ghost(0),
        }
    }

    /// The number of elements.
    pub fn count(&self) -> (n: usize)
        ensures
            n == self.len(),
    {
        self.parents.len()
    }

    /// Adds an element in a set of its own and gives its index.
    pub fn make_set(&mut self) -> (index: usize)
        requires
            old(self).wf(),
        ensures
            final(self).wf(),
            index == old(self).len(),
            final(self).len() == old(self).len() + 1,
            final(self).root_of(index as int) == index,
            final(self).set_size(index as int) == 1,
            forall|x: int|
                0 <= x < old(self).len() ==> final(self).root_of(x) == old(self).root_of(x)
                    && final(self).set_size(x) == old(self).set_size(x),
    {
        let index = self.parents.len();
        self.parents.push(index);
        self.sizes.push(1);
        proof {
            self.rank@ = self.rank@.push(0);
            self.limit@ = self.limit@ + 1;
        }
        proof {
            let n = old(self).len();
            assert(self.linked());
            assert forall|x: int| 0 <= x < n implies self.root_of(x) == old(self).root_of(x) by {
                self.lemma_same_roots(old(self), x);
            }
            assert forall|x: int| 0 <= x < n implies self.root_of(x) != index by {
                old(self).lemma_root(x);
            }
            self.lemma_members_none(index as int, n);
            assert forall|r: int| 0 <= r < n implies self.members(r, n + 1) == old(self).members(
                r,
                n,
            ) by {
                self.lemma_members_same(old(self), r, n);
            }
            assert forall|x: int| 0 <= x < n implies self.set_size(x) == old(self).set_size(x) by {
                old(self).lemma_root(x);
            }
        }
        index
    }

    // An element whose tree is the same in two structures has the same root
    // in both.
    proof fn lemma_same_roots(&self, other: &Self, x: int)
        requires
            self.linked(),
            other.linked(),
            0 <= x < other.parents@.len() <= self.parents@.len(),
            forall|i: int| 0 <= i < other.parents@.len() ==> self.parents@[i] == other.parents@[i],
        ensures
            self.root_of(x) == other.root_of(x),
        decreases other.limit@ - other.rank@[x],
    {
        if other.parents@[x] != x {
            self.lemma_same_roots(other, other.parents@[x] as int);
        }
    }

    /// The size of the set of `x`, if `x` is an element.
    pub fn size_of_set(&mut self, x: usize) -> (r: Option<usize>)
        requires
            old(self).wf(),
        ensures
            *final(self) == *old(self),
            x >= old(self).len() ==> r is None,
            x < old(self).len() ==> r is Some && r.unwrap() == old(self).set_size(x as int),
    {
        match self.find(x) {
            Some(root) => {
                proof {
                    self.lemma_root(x as int);
                }
                Some(self.sizes[root])
            },
            None => None,
        }
    }

    /// Every element that is the parent of some element, itself or another.
    /// That holds the root of every set.
    pub fn roots(&mut self) -> (r: HashSet<usize>)
        requires
            old(self).wf(),
        ensures
            *final(self) == *old(self),
            forall|v: usize|
                r@.contains(v) <==> exists|i: int|
                    0 <= i < old(self).len() && #[trigger] old(self).parent_of(i) == v,
    {
        let mut result = HashSet::new();
        let n = self.parents.len();
        let mut i: usize = 0;
        while i < n
            invariant
                i <= n,
                n == self.parents@.len(),
                *self == *old(self),
                forall|v: usize|
                    result@.contains(v) <==> exists|j: int|
                        0 <= j < i && #[trigger] self.parent_of(j) == v,
            decreases n - i,
        {
            let p = self.parents[i];
            result.insert(p);
            proof {
                assert(self.parent_of(i as int) == p);
            }
            i += 1;
        }
        result
    }

    /// The root of the set of `x`, if `x` is an element.
    pub fn find(&mut self, x: usize) -> (r: Option<usize>)
        requires
            old(self).wf(),
        ensures
            *final(self) == *old(self),
            x >= old(self).len() ==> r is None,
            x < old(self).len() ==> r is Some && r.unwrap() == old(self).root_of(x as int),
    {
        if x >= self.parents.len() {
            return None;
        }
        let ghost start = x;
        let mut x = x;
        while self.parents[x] != x
            invariant
                *self == *old(self),
                self.wf(),
                x < self.parents@.len(),
                self.root_of(x as int) == self.root_of(start as int),
            decreases self.limit@ - self.rank@[x as int],
        {
            proof {
                self.lemma_climb(x as int);
            }
            x = self.parents[x];
        }
        Some(x)
    }

    /// Merges the sets of `x` and `y`, the smaller into the larger. Fails
    /// if one of them is no element.
    pub fn union(&mut self, x: usize, y: usize) -> (r: Result<(), &'static str>)
        requires
            old(self).wf(),
        ensures
            final(self).wf(),
            final(self).len() == old(self).len(),
            r is Err <==> x >= old(self).len() || y >= old(self).len(),
            r matches Err(message) ==> *final(self) == *old(self) && message@
                == "Cannot union elements that are not in the data structure."@,
            r is Ok ==> final(self).merged_from(old(self), x as int, y as int),
    {
        let x_root = self.find(x);
        let y_root = self.find(y);
        let (mut x_root, mut y_root) = match (x_root, y_root) {
            (Some(a), Some(b)) => (a, b),
            _ => {
                return Err("Cannot union elements that are not in the data structure.");
            },
        };
        proof {
            self.lemma_root(x as int);
            self.lemma_root(y as int);
        }
        if x_root == y_root {
            return Ok(());
        }
        assert(!old(self).same_set(x as int, y as int));
        if self.sizes[x_root] < self.sizes[y_root] {
            let swap = x_root;
            x_root = y_root;
            y_root = swap;
        }
        let ghost n = self.len();
        proof {
            self.lemma_members_apart(x_root as int, y_root as int, n);
            assert(self.parents@[x_root as int] == x_root && self.parents@[y_root as int] == y_root);
            assert(self.sizes@[x_root as int] == self.members(x_root as int, n));
            assert(self.sizes@[y_root as int] == self.members(y_root as int, n));
            assert(n == self.parents.len() <= usize::MAX);
        }
        let joined = self.sizes[x_root] + self.sizes[y_root];
        self.parents.set(y_root, x_root);
        self.sizes.set(x_root, joined);
        proof {
            let above = if self.rank@[x_root as int] > self.rank@[y_root as int] {
                self.rank@[x_root as int]
            } else {
                self.rank@[y_root as int] + 1
            };
            self.rank@ = self.rank@.update(x_root as int, above);
            self.limit@ = self.limit@ + 1;
        }
        proof {
            assert(self.linked());
            assert forall|i: int| 0 <= i < n implies self.root_of(i) == if old(self).root_of(i)
                == y_root {
                x_root as int
            } else {
                old(self).root_of(i)
            } by {
                self.lemma_roots_joined(old(self), x_root as int, y_root as int, i);
            }
            self.lemma_members_joined_from(old(self), x_root as int, y_root as int, n);
            assert forall|r: int| 0 <= r < n && self.parents@[r] == r implies (
            #[trigger] self.sizes@[r]) == self.members(r, n) by {
                if r != x_root {
                    old(self).lemma_members_same_but(self, r, x_root as int, y_root as int, n);
                }
            }
            assert forall|a: int| 0 <= a < n implies (#[trigger] self.set_size(a)) == if old(self).same_set(
                x as int,
                y as int,
            ) || !(old(self).same_set(a, x as int) || old(self).same_set(a, y as int)) {
                old(self).set_size(a)
            } else {
                old(self).set_size(x as int) + old(self).set_size(y as int)
            } by {
                old(self).lemma_root(a);
                let r = old(self).root_of(a);
                if r != x_root && r != y_root {
                    old(self).lemma_members_same_but(self, r, x_root as int, y_root as int, n);
                }
            }
        }
        Ok(())
    }

    // After `loser`, a root, was given the root `winner` as its parent,
    // what was in the set of `loser` is in the set of `winner`, and every
    // other element is where it was.
    proof fn lemma_roots_joined(&self, before: &Self, winner: int, loser: int, x: int)
        requires
            before.linked(),
            self.linked(),
            self.parents@.len() == before.parents@.len(),
            0 <= winner < before.parents@.len(),
            0 <= loser < before.parents@.len(),
            winner != loser,
            before.parents@[winner] == winner,
            before.parents@[loser] == loser,
            self.parents@ == before.parents@.update(loser, winner as usize),
            0 <= x < before.parents@.len(),
        ensures
            self.root_of(x) == if before.root_of(x) == loser {
                winner
            } else {
                before.root_of(x)
            },
        decreases before.limit@ - before.rank@[x],
    {
        if before.parents@[x] != x {
            self.lemma_roots_joined(before, winner, loser, before.parents@[x] as int);
        } else if x == loser {
            assert(self.parents@[loser] == winner);
            assert(self.parents@[winner] == winner);
            assert(self.root_of(winner) == winner);
        }
    }

    proof fn lemma_members_joined_from(&self, before: &Self, winner: int, loser: int, n: nat)
        requires
            winner != loser,
            forall|i: int|
                0 <= i < n ==> self.root_of(i) == if before.root_of(i) == loser {
                    winner
                } else {
                    before.root_of(i)
                },
        ensures
            self.members(winner, n) == before.members(winner, n) + before.members(loser, n),
    {
        before.lemma_members_joined(self, winner, loser, n);
    }

    // A root apart from the two that were joined has the members it had.
    proof fn lemma_members_same_but(&self, after: &Self, r: int, winner: int, loser: int, n: nat)
        requires
            r != winner,
            r != loser,
            forall|i: int|
                0 <= i < n ==> after.root_of(i) == if self.root_of(i) == loser {
                    winner
                } else {
                    self.root_of(i)
                },
        ensures
            after.members(r, n) == self.members(r, n),
    {
        after.lemma_members_same(self, r, n);
    }
}

impl Default for UnionFind {
    fn default() -> (uf: Self)
        ensures
            uf.wf(),
            uf.len() == 0,
    {
        UnionFind::new()
    }
}

} // verus!
