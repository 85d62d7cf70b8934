//! A counter of how often each item of a collection occurs, kept in a hash
//! map.

use std::collections::HashMap;
use std::hash::Hash;
use vstd::multiset::Multiset;
use vstd::prelude::*;
use vstd::std_specs::hash::obeys_key_model;

verus! {

/// Counts of items.
pub struct Counter<T> {
    counts: HashMap<T, usize>,
    count_sum: usize,
    items: Ghost<Multiset<T>>,
}

/// `n` copies of `item`.
pub open spec fn copies<T>(item: T, n: nat) -> Multiset<T>
    decreases n,
{
    if n == 0 {
        Multiset::empty()
    } else {
        copies(item, (n - 1) as nat).insert(item)
    }
}

/// `n` copies of an item are `n` items, all of them that item.
pub proof fn lemma_copies<T>(item: T, n: nat)
    ensures
        copies(item, n).len() == n,
        copies(item, n).count(item) == n,
        forall|other: T| other != item ==> #[trigger] copies(item, n).count(other) == 0,
    decreases n,
{
    broadcast use vstd::multiset::group_multiset_axioms;

    if n > 0 {
        lemma_copies(item, (n - 1) as nat);
    }
}

impl<T> View for Counter<T> {
    type V = Multiset<T>;

    /// The items counted, each as often as it was added.
    closed spec fn view(&self) -> Multiset<T> {
        self.items@
    }
}

impl<T: Hash + Eq> Counter<T> {
    /// The map holds the count of every item that was added, and the sum
    /// is the number of all items.
    pub closed spec fn wf(&self) -> bool {
        &&& forall|k: T| #[trigger] self.counts@.contains_key(k) ==> self.counts@[k] == self.items@.count(k)
        &&& forall|k: T| !self.counts@.contains_key(k) ==> #[trigger] self.items@.count(k) == 0
        &&& self.count_sum == self.items@.len()
    }

    /// The counts by item, as the map holds them.
    pub closed spec fn counts(&self) -> Map<T, usize> {
        self.counts@
    }

    /// A counter of nothing.
    pub fn new() -> (counter: Self)
        ensures
            counter.wf(),
            counter@ == Multiset::<T>::empty(),
    {
        broadcast use vstd::std_specs::hash::group_hash_axioms;
        broadcast use vstd::multiset::group_multiset_axioms;

        Self { counts: HashMap::new(), count_sum: 0, items: Ghost(Multiset::empty()) }
    }

    /// A counter of nothing, with room for `capacity` different items.
    pub fn with_capacity(capacity: usize) -> (counter: Self)
        ensures
            counter.wf(),
            counter@ == Multiset::<T>::empty(),
    {
        broadcast use vstd::std_specs::hash::group_hash_axioms;
        broadcast use vstd::multiset::group_multiset_axioms;

        Self { counts: HashMap::with_capacity(capacity), count_sum: 0, items: Ghost(Multiset::empty()) }
    }

    /// A counter of the given items.
    pub fn from_items(items: Vec<T>) -> (counter: Self)
        requires
            obeys_key_model::<T>(),
        ensures
            counter.wf(),
            counter@ == items@.to_multiset(),
    {
        broadcast use vstd::multiset::group_multiset_axioms;

        let mut counter = Self::new();
        let ghost all = items@;
        let len = items.len();
        proof {
            assert(all.take(0) =~= Seq::<T>::empty());
            all.take(0).to_multiset_ensures();
        }
        let mut n: usize = 0;
        for item in it: items
            invariant
                obeys_key_model::<T>(),
                counter.wf(),
                it.seq() == all,
                all.len() == len,
                n == it.index(),
                counter@ == all.take(it.index() as int).to_multiset(),
        {
            proof {
                let seen = all.take(n as int);
                seen.to_multiset_ensures();
                vstd::seq_lib::to_multiset_len(seen);
                assert(counter@.len() == n && n < len);
                assert(all.take(n + 1) =~= seen.push(item));
                vstd::seq_lib::to_multiset_build(seen, item);
                lemma_copies(item, 1);
                assert(copies(item, 1) =~= Multiset::<T>::empty().insert(item));
                assert(Multiset::<T>::empty().insert(item) =~= Multiset::singleton(item));
            }
            counter.add(item);
            n += 1;
        }
        proof {
            assert(all.take(all.len() as int) =~= all);
        }
        counter
    }

    /// Counts `item` once more.
    pub fn add(&mut self, item: T)
        requires
            old(self).wf(),
            obeys_key_model::<T>(),
            old(self)@.len() < usize::MAX,
        ensures
            final(self).wf(),
            final(self)@ == old(self)@.add(copies(item, 1)),
    {
        self.add_many(item, 1)
    }

    /// Counts `item` `count` times more.
    pub fn add_many(&mut self, item: T, count: usize)
        requires
            old(self).wf(),
            obeys_key_model::<T>(),
            old(self)@.len() + count <= usize::MAX,
        ensures
            final(self).wf(),
            final(self)@ == old(self)@.add(copies(item, count as nat)),
    {
        broadcast use vstd::std_specs::hash::group_hash_axioms;
        broadcast use vstd::multiset::group_multiset_axioms;

        proof {
            lemma_copies(item, count as nat);
        }
        self.count_sum += count;
        let so_far = match self.counts.get(&item) {
            Some(c) => *c,
            None => 0,
        };
        self.counts.insert(item, so_far + count);
        proof {
            self.items@ = self.items@.add(copies(item, count as nat));
        }
    }

    /// How often `item` was counted.
    pub fn get(&self, item: &T) -> (n: usize)
        requires
            self.wf(),
            obeys_key_model::<T>(),
        ensures
            n == self@.count(*item),
    {
        broadcast use vstd::std_specs::hash::group_hash_axioms;

        match self.counts.get(item) {
            Some(c) => *c,
            None => 0,
        }
    }

    /// How many items were counted in all.
    pub fn count_sum(&self) -> (n: usize)
        requires
            self.wf(),
        ensures
            n == self@.len(),
    {
        self.count_sum
    }
}

impl<T: Hash + Eq> std::ops::Deref for Counter<T> {
    type Target = HashMap<T, usize>;

    /// The counts by item.
    fn deref(&self) -> (counts: &HashMap<T, usize>)
        ensures
            counts@ == self.counts(),
    {
        &self.counts
    }
}

impl<T: Hash + Eq> Default for Counter<T> {
    fn default() -> (counter: Self)
        ensures
            counter.wf(),
            counter@ == Multiset::<T>::empty(),
    {
        Self::new()
    }
}

impl<T: Hash + Eq> vstd::std_specs::core::IndexSpecImpl<T> for Counter<T> {
    /// Indexing asks for a counter that is well formed.
    open spec fn index_req(&self, index: &T) -> bool {
        self.wf() && obeys_key_model::<T>()
    }
}

impl<T: Hash + Eq> std::ops::Index<T> for Counter<T> {
    type Output = usize;

    /// How often `index` was counted.
    fn index(&self, index: T) -> (n: &usize)
        ensures
            *n == self@.count(index),
    {
        broadcast use vstd::std_specs::hash::group_hash_axioms;

        match self.counts.get(&index) {
            Some(c) => c,
            None => &0,
        }
    }
}

} // verus!
