//! A dense slot store addressed by stable handles.
//!
//! Values live in a vector of optional slots. A handle is the position of a
//! slot; it stays valid until the value is removed, and inserting or removing
//! other values never moves it. Vacated slots are remembered in a free list
//! and reused by later insertions.

use vstd::prelude::*;

verus! {

/// Handle of a value stored in a [`Slab`].
pub type Handle = usize;

/// A store of values in slots, each value under a handle of its own.
pub struct Slab<T> {
    slots: Vec<Option<T>>,
    free: Vec<usize>,
}

/// The handles below `n`.
pub open spec fn handles_below(n: nat) -> Set<Handle> {
    Set::new(|h: Handle| (h as nat) < n)
}

/// There are exactly `n` handles below `n`.
pub proof fn lemma_handles_below_len(n: nat)
    requires
        n <= usize::MAX + 1,
    ensures
        handles_below(n).finite(),
        handles_below(n).len() == n,
    decreases n,
{
    if n == 0 {
        assert(handles_below(n) =~= Set::<Handle>::empty());
    } else {
        let m = (n - 1) as nat;
        lemma_handles_below_len(m);
        assert(handles_below(n) =~= handles_below(m).insert(m as Handle));
    }
}

impl<T> Slab<T> {
    /// The stored values, by handle.
    pub closed spec fn view(&self) -> Map<Handle, T> {
        Map::new(
            |h: Handle| h < self.slots.len() && self.slots[h as int].is_some(),
            |h: Handle| self.slots[h as int].unwrap(),
        )
    }

    /// The number of slots, occupied or vacant.
    pub closed spec fn capacity(&self) -> nat {
        self.slots.len() as nat
    }

    /// Every remembered vacant slot exists, is vacant, and is remembered once.
    pub closed spec fn wf(&self) -> bool {
        &&& forall|i: int|
            0 <= i < self.free.len() ==> (#[trigger] self.free[i]) < self.slots.len()
                && self.slots[self.free[i] as int].is_none()
        &&& forall|i: int, j: int| 0 <= i < j < self.free.len() ==> self.free[i] != self.free[j]
    }

    /// The store never holds more values than it has slots.
    pub proof fn lemma_len_bounded(&self)
        ensures
            self@.dom().finite(),
            self@.dom().len() <= self.capacity() <= usize::MAX,
    {
        let n = self.capacity();
        lemma_handles_below_len(n);
        assert(self@.dom().subset_of(handles_below(n)));
        vstd::set_lib::lemma_len_subset(self@.dom(), handles_below(n));
    }

    /// An empty store.
    pub fn new() -> (s: Self)
        ensures
            s.wf(),
            s@ == Map::<Handle, T>::empty(),
    {
        let s = Slab { slots: Vec::new(), free: Vec::new() };
        assert(s@ =~= Map::<Handle, T>::empty());
        s
    }

    /// Borrows the value behind `h`.
    pub fn get(&self, h: Handle) -> (r: &T)
        requires
            self@.dom().contains(h),
        ensures
            *r == self@[h],
    {
        self.slots[h].as_ref().unwrap()
    }

    /// Borrows the value behind `h` for writing; nothing else changes.
    pub fn get_mut(&mut self, h: Handle) -> (r: &mut T)
        requires
            old(self).wf(),
            old(self)@.dom().contains(h),
        ensures
            *r == old(self)@[h],
            final(self)@ == old(self)@.insert(h, *final(r)),
            final(self).wf(),
    {
        let slot = &mut self.slots[h];
        match slot {
            Some(v) => v,
            None => vstd::pervasive::unreached(),
        }
    }

    /// Stores `value` under a handle that was not in use.
    pub fn insert(&mut self, value: T) -> (h: Handle)
        requires
            old(self).wf(),
        ensures
            final(self).wf(),
            !old(self)@.dom().contains(h),
            final(self)@ == old(self)@.insert(h, value),
    {
        match self.free.pop() {
            Some(h) => {
                self.slots[h] = Some(value);
                assert(self@ =~= old(self)@.insert(h, value));
                h
            },
            None => {
                let h = self.slots.len();
                self.slots.push(Some(value));
                assert(self@ =~= old(self)@.insert(h, value));
                h
            },
        }
    }

    /// Takes the value behind `h` out and frees its slot.
    pub fn remove(&mut self, h: Handle) -> (r: T)
        requires
            old(self).wf(),
            old(self)@.dom().contains(h),
        ensures
            final(self).wf(),
            r == old(self)@[h],
            final(self)@ == old(self)@.remove(h),
    {
        let slot = &mut self.slots[h];
        let r = slot.take().unwrap();
        self.free.push(h);
        assert(self@ =~= old(self)@.remove(h));
        r
    }
}

} // verus!
