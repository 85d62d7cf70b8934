//! A sequence kept in a treap: the position of a value takes the place of
//! a key, so that values can be put in and taken out anywhere.

use crate::misc::cartesian_tree::{CTNode, CartesianTree, Priority};
use crate::misc::shape::{
    lemma_count_is_size, lemma_decode_size, lemma_frame, lemma_graft_left, lemma_graft_right,
    lemma_handle_at_value, lemma_handles_in_store, lemma_relinked_twice,
    lemma_reshaped_is_relinked, lemma_size_fits, lemma_size_zero, lemma_untouched,
    lemma_value_written, relinked, Shape,
};
use crate::misc::slab::{Handle, Slab};
use crate::misc::tree_laws::{
    lemma_count_is_values_len, lemma_merge_heap, lemma_merge_values, lemma_split_heap,
    lemma_split_values, split_point,
};
use crate::misc::tree_model::Tree;
use vstd::prelude::*;

verus! {

/// A sequence that takes insertions and removals at any position in
/// logarithmic expected time, given random priorities.
pub struct ImplicitTreap<T> {
    arena: Slab<CTNode<(), T>>,
    root: Option<Handle>,
    shape: Ghost<Shape>,
}

impl<T> View for ImplicitTreap<T> {
    type V = Seq<T>;

    /// The values in their order.
    open spec fn view(&self) -> Seq<T> {
        self.tree().values()
    }
}

/// Where a value put in at `pos` comes to stand in a sequence of `len`
/// values: at `pos`, or at the end if `pos` is beyond it.
pub open spec fn landing(len: nat, pos: nat) -> int {
    if pos <= len {
        pos as int
    } else {
        len as int
    }
}

impl<T> ImplicitTreap<T> {
    /// The tree that the nodes form.
    pub closed spec fn tree(&self) -> Tree<(), T> {
        self.shape@.decode(self.arena@)
    }

    /// The handle of the root node.
    pub closed spec fn root_handle(&self) -> Option<Handle> {
        self.root
    }

    /// The store holds the nodes of the tree and nothing else, and the root
    /// handle is that of the tree's root.
    pub closed spec fn stored(&self) -> bool {
        &&& self.arena.wf()
        &&& self.shape@.held_by(self.arena@)
        &&& self.shape@.top() == self.root
        &&& self.arena@.dom() =~= self.shape@.handles()
    }

    /// The nodes form a max-heap by priority, each node counting the nodes
    /// of its subtree.
    pub open spec fn wf(&self) -> bool {
        self.stored() && self.tree().is_heap()
    }

    /// Whether the nodes form a heap with true counts, found by going
    /// through all of them. It is true of every sequence that the
    /// functions of this type have made.
    pub fn holds_invariants(&self) -> (ok: bool)
        requires
            self.stored(),
        ensures
            ok == self.tree().is_heap(),
    {
        CartesianTree::<(), T>::heap_holds(&self.arena, self.root, Ghost(self.shape@))
    }

    /// An empty sequence.
    pub fn new() -> (treap: Self)
        ensures
            treap.wf(),
            treap@ == Seq::<T>::empty(),
    {
        let treap = Self { arena: Slab::new(), root: None, shape: Ghost(Shape::Leaf) };
        proof {
            assert(treap.arena@.dom() =~= Shape::Leaf.handles());
        }
        treap
    }

    /// Whether the sequence is empty.
    pub fn is_empty(&self) -> (b: bool)
        requires
            self.wf(),
        ensures
            b == (self@.len() == 0),
    {
        proof {
            lemma_count_is_values_len(self.tree());
        }
        self.root.is_none()
    }

    /// The number of values.
    pub fn len(&self) -> (n: usize)
        requires
            self.wf(),
        ensures
            n == self@.len(),
    {
        proof {
            lemma_count_is_values_len(self.tree());
        }
        Self::size(&self.arena, self.root, Ghost(self.shape@))
    }

    /// Puts `value` at the end, in a node of the given priority.
    pub fn push_back(&mut self, value: T, priority: Priority)
        requires
            old(self).wf(),
        ensures
            final(self).wf(),
            final(self)@ == old(self)@.push(value),
    {
        let end = self.len();
        self.insert(end, value, priority);
        assert(old(self)@.insert(old(self)@.len() as int, value) =~= old(self)@.push(value));
    }

    /// Takes the last value out, if there is one.
    pub fn pop_back(&mut self) -> (r: Option<T>)
        requires
            old(self).wf(),
        ensures
            final(self).wf(),
            old(self)@.len() == 0 ==> r is None && final(self)@ == old(self)@,
            old(self)@.len() > 0 ==> r == Some(old(self)@.last()) && final(self)@ == old(
                self,
            )@.drop_last(),
    {
        let len = self.len();
        if len == 0 {
            return None;
        }
        let r = self.remove(len - 1);
        assert(old(self)@.remove(len - 1) =~= old(self)@.drop_last());
        r
    }

    /// Puts `value` at the front, in a node of the given priority.
    pub fn push_front(&mut self, value: T, priority: Priority)
        requires
            old(self).wf(),
        ensures
            final(self).wf(),
            final(self)@ == seq![value] + old(self)@,
    {
        self.insert(0, value, priority);
        assert(old(self)@.insert(0, value) =~= seq![value] + old(self)@);
    }

    /// Takes the first value out, if there is one.
    pub fn pop_front(&mut self) -> (r: Option<T>)
        requires
            old(self).wf(),
        ensures
            final(self).wf(),
            old(self)@.len() == 0 ==> r is None && final(self)@ == old(self)@,
            old(self)@.len() > 0 ==> r == Some(old(self)@.first()) && final(self)@ == old(
                self,
            )@.drop_first(),
    {
        let r = self.remove(0);
        proof {
            if old(self)@.len() > 0 {
                assert(old(self)@.remove(0) =~= old(self)@.drop_first());
            }
        }
        r
    }

    /// Puts `value` at position `pos`, or at the end if `pos` is beyond it,
    /// in a node of the given priority, and gives the handle of the tree's
    /// root.
    pub fn insert(&mut self, pos: usize, value: T, priority: Priority) -> (root: Handle)
        requires
            old(self).wf(),
        ensures
            final(self).wf(),
            final(self)@ == old(self)@.insert(landing(old(self)@.len(), pos as nat), value),
            final(self).tree() == old(self).tree().with_value_at(pos as nat, (), value, priority),
            final(self).root_handle() == Some(root),
    {
        let ghost s = self.shape@;
        let ghost before = self.arena@;
        let ghost whole = self.tree();
        let root = self.root;
        let fresh = CTNode { key: (), value, priority, left: None, right: None, count: 1 };
        let node = self.arena.insert(fresh);
        let ghost single = Shape::Fork {
            left: Box::new(Shape::Leaf),
            at: node,
            right: Box::new(Shape::Leaf),
        };
        let ghost a0 = self.arena@;
        proof {
            lemma_handles_in_store(s, before);
            lemma_frame(s, before, a0);
            lemma_size_fits(s, &self.arena);
            assert(Shape::Leaf.held_by(a0));
            assert(Shape::Leaf.handles() =~= Set::<Handle>::empty());
            assert(Shape::Leaf.decode(a0) == Tree::<(), T>::Empty);
            assert(single.lhs() == Shape::Leaf && single.rhs() == Shape::Leaf);
            assert(single.handles() =~= set![node]);
            assert(single.held_by(a0));
            let empty = Tree::<(), T>::Empty;
            assert(empty.is_heap() && empty.values() =~= Seq::<T>::empty());
            assert(single.decode(a0) == Tree::mk(empty, (), value, priority, empty));
            assert(single.decode(a0).is_heap());
            assert(single.decode(a0).values() =~= seq![value]);
            lemma_count_is_values_len(whole);
        }

        let (l, r, Ghost(a), Ghost(b)) = if pos == 0 {
            (None, root, Ghost(Shape::Leaf), Ghost(s))
        } else {
            Self::split(&mut self.arena, root, Ghost(s), pos - 1, 0)
        };
        let ghost a1 = self.arena@;
        let ghost first = a.decode(a1);
        let ghost second = b.decode(a1);
        proof {
            let k = landing(whole.values().len(), pos as nat);
            if pos == 0 {
                assert(first.values() =~= whole.values().take(k));
                assert(second.values() =~= whole.values().skip(k));
            } else {
                lemma_split_values(whole, (pos - 1) as nat, 0);
                lemma_split_heap(whole, (pos - 1) as nat, 0, u64::MAX);
                assert(k == split_point(whole.values().len(), (pos - 1) as nat, 0));
                lemma_untouched(single, a0, s.handles(), a1);
            }
            assert(a.handles().disjoint(single.handles()));
        }

        let (left_treap, Ghost(tl)) = Self::merge(
            &mut self.arena,
            l,
            Ghost(a),
            Some(node),
            Ghost(single),
        );
        let ghost a2 = self.arena@;
        proof {
            lemma_merge_values(first, single.decode(a1));
            lemma_merge_heap(first, single.decode(a1), u64::MAX);
            lemma_untouched(b, a1, a.handles().union(single.handles()), a2);
        }
        let (result, Ghost(t)) = Self::merge(&mut self.arena, left_treap, Ghost(tl), r, Ghost(b));
        proof {
            lemma_merge_values(tl.decode(a2), second);
            lemma_merge_heap(tl.decode(a2), second, u64::MAX);
            let k = landing(whole.values().len(), pos as nat);
            assert(whole.values().take(k) + seq![value] + whole.values().skip(k) =~= whole.values().insert(
                k,
                value,
            ));
            assert(t.handles() =~= s.handles().insert(node));
        }
        self.root = result;
        self.shape = Ghost(t);
        result.unwrap()
    }

    /// Takes the value at position `pos` out, if there is one.
    pub fn remove(&mut self, pos: usize) -> (r: Option<T>)
        requires
            old(self).wf(),
        ensures
            final(self).wf(),
            pos < old(self)@.len() ==> r == Some(old(self)@[pos as int]) && final(self)@ == old(
                self,
            )@.remove(pos as int),
            pos >= old(self)@.len() ==> r is None && final(self)@ == old(self)@,
            final(self).tree() == old(self).tree().without_value_at(pos as nat),
    {
        let ghost s = self.shape@;
        let ghost a0 = self.arena@;
        let ghost whole = self.tree();
        let root = self.root;
        proof {
            lemma_handles_in_store(s, a0);
            lemma_size_fits(s, &self.arena);
            lemma_count_is_values_len(whole);
            assert(Shape::Leaf.held_by(a0));
            assert(Shape::Leaf.handles() =~= Set::<Handle>::empty());
            assert(Shape::Leaf.decode(a0) == Tree::<(), T>::Empty);
        }
        let (l, r1, Ghost(a), Ghost(b1)) = if pos == 0 {
            (None, root, Ghost(Shape::Leaf), Ghost(s))
        } else {
            Self::split(&mut self.arena, root, Ghost(s), pos - 1, 0)
        };
        let ghost a1 = self.arena@;
        let ghost first = a.decode(a1);
        let ghost rest = b1.decode(a1);
        let ghost k = landing(whole.values().len(), pos as nat);
        proof {
            if pos == 0 {
                assert(first.values() =~= whole.values().take(k));
                assert(rest.values() =~= whole.values().skip(k));
            } else {
                lemma_split_values(whole, (pos - 1) as nat, 0);
                lemma_split_heap(whole, (pos - 1) as nat, 0, u64::MAX);
                assert(k == split_point(whole.values().len(), (pos - 1) as nat, 0));
            }
            lemma_size_fits(b1, &self.arena);
            lemma_count_is_values_len(rest);
            lemma_split_values(rest, 0, 0);
            lemma_split_heap(rest, 0, 0, u64::MAX);
        }

        let (m, r2, Ghost(sm), Ghost(b2)) = Self::split(&mut self.arena, r1, Ghost(b1), 0, 0);
        let ghost a2 = self.arena@;
        let ghost middle = sm.decode(a2);
        proof {
            lemma_untouched(a, a1, b1.handles(), a2);
            lemma_count_is_values_len(middle);
            lemma_decode_size(sm, a2);
            assert(a.handles().disjoint(b2.handles()));
        }

        let (new_root, Ghost(t)) = Self::merge(&mut self.arena, l, Ghost(a), r2, Ghost(b2));
        let ghost a3 = self.arena@;
        proof {
            lemma_merge_values(first, b2.decode(a2));
            lemma_merge_heap(first, b2.decode(a2), u64::MAX);
            lemma_untouched(sm, a2, a.handles().union(b2.handles()), a3);
            lemma_handles_in_store(t, a3);
        }
        self.root = new_root;
        self.shape = Ghost(t);

        match m {
            Some(node) => {
                proof {
                    assert(sm.size() == 1);
                    lemma_size_zero(sm.lhs());
                    lemma_size_zero(sm.rhs());
                    assert(sm.handles() =~= set![node]);
                    assert(middle.values() =~= seq![a2[node].value]);
                    assert(rest.values().take(1)[0] == rest.values()[0]);
                    assert(whole.values().skip(k)[0] == whole.values()[k]);
                    assert(whole.values().take(k) + whole.values().skip(k).skip(1) =~= whole.values().remove(
                        k,
                    ));
                }
                let taken = self.arena.remove(node);
                proof {
                    lemma_frame(t, a3, self.arena@);
                }
                Some(taken.value)
            },
            None => {
                proof {
                    assert(sm == Shape::Leaf);
                    assert(rest.values().take(0) =~= Seq::<T>::empty());
                    assert(whole.values().take(k) + whole.values().skip(k).skip(0) =~= whole.values());
                }
                None
            },
        }
    }

    // The count kept at `node`; 0 for no node.
    fn size(arena: &Slab<CTNode<(), T>>, node: Option<Handle>, Ghost(s): Ghost<Shape>) -> (n: usize)
        requires
            s.held_by(arena@),
            s.top() == node,
        ensures
            n == s.decode(arena@).cnt(),
    {
        CartesianTree::<(), T>::count_at(arena, node, Ghost(s))
    }

    // The node at position `pos`, positions counted from 1.
    fn find(arena: &Slab<CTNode<(), T>>, t: Option<Handle>, Ghost(s): Ghost<Shape>, pos: usize) -> (r:
        Option<Handle>)
        requires
            s.held_by(arena@),
            s.top() == t,
            s.decode(arena@).counts_consistent(),
        ensures
            pos == 0 ==> r is None,
            pos > 0 ==> r == s.handle_at(arena@, (pos - 1) as nat),
        decreases s,
    {
        let h = match t {
            Some(h) => h,
            None => {
                return None;
            },
        };
        proof {
            lemma_size_fits(s, arena);
            lemma_size_fits(s.lhs(), arena);
            lemma_count_is_size(s.lhs().decode(arena@));
        }
        let node = arena.get(h);
        let current_pos = Self::size(arena, node.left, Ghost(s.lhs())) + 1;
        if pos < current_pos {
            Self::find(arena, node.left, Ghost(s.lhs()), pos)
        } else if pos > current_pos {
            Self::find(arena, node.right, Ghost(s.rhs()), pos - current_pos)
        } else {
            Some(h)
        }
    }

    // Cuts the tree of `t` in two. With `add` positions taken to lie before
    // it, the nodes at positions up to `pos` make the first tree.
    fn split(
        arena: &mut Slab<CTNode<(), T>>,
        t: Option<Handle>,
        Ghost(s): Ghost<Shape>,
        pos: usize,
        add: usize,
    ) -> (r: (Option<Handle>, Option<Handle>, Ghost<Shape>, Ghost<Shape>))
        requires
            old(arena).wf(),
            s.held_by(old(arena)@),
            s.top() == t,
            s.decode(old(arena)@).counts_consistent(),
            add + s.size() <= usize::MAX,
        ensures
            final(arena).wf(),
            r.2@.held_by(final(arena)@),
            r.3@.held_by(final(arena)@),
            r.2@.top() == r.0,
            r.3@.top() == r.1,
            r.2@.decode(final(arena)@) == s.decode(old(arena)@).split(pos as nat, add as nat).0,
            r.3@.decode(final(arena)@) == s.decode(old(arena)@).split(pos as nat, add as nat).1,
            r.2@.decode(final(arena)@).counts_consistent(),
            r.3@.decode(final(arena)@).counts_consistent(),
            r.2@.handles().disjoint(r.3@.handles()),
            r.2@.handles().union(r.3@.handles()) =~= s.handles(),
            relinked(old(arena)@, s.handles(), final(arena)@),
        decreases s,
    {
        let h = match t {
            Some(h) => h,
            None => {
                proof {
                    assert(Shape::Leaf.handles() =~= Set::<Handle>::empty());
                }
                return (None, None, Ghost(Shape::Leaf), Ghost(Shape::Leaf));
            },
        };
        let ghost sl = s.lhs();
        let ghost sr = s.rhs();
        let ghost a0 = arena@;
        proof {
            lemma_handles_in_store(s, a0);
            lemma_size_fits(sl, arena);
            lemma_size_fits(sr, arena);
            lemma_count_is_size(sl.decode(a0));
        }
        let node = arena.get(h);
        let left = node.left;
        let right = node.right;
        let current_pos = Self::size(arena, left, Ghost(sl)) + add;

        if current_pos <= pos {
            let (new_left, new_right, Ghost(a), Ghost(b)) = Self::split(
                arena,
                right,
                Ghost(sr),
                pos,
                current_pos + 1,
            );
            let ghost a1 = arena@;
            let root_node = arena.get_mut(h);
            root_node.right = new_left;
            let ghost a2 = arena@;
            let ghost t0 = Shape::Fork { left: Box::new(sl), at: h, right: Box::new(a) };
            proof {
                lemma_graft_right(a0, s, sr.handles(), a1, a, a2);
                lemma_handles_in_store(b, a1);
                lemma_frame(b, a1, a2);
            }
            Self::update_size(arena, Some(h), Ghost(t0));
            proof {
                lemma_reshaped_is_relinked(a2, t0, arena@);
                lemma_untouched(b, a2, t0.handles(), arena@);
                lemma_relinked_twice(a0, sr.handles().insert(h), a2, t0.handles(), arena@, s.handles());
            }
            (Some(h), new_right, Ghost(t0), Ghost(b))
        } else {
            let (new_left, new_right, Ghost(a), Ghost(b)) = Self::split(arena, left, Ghost(sl), pos, add);
            let ghost a1 = arena@;
            let root_node = arena.get_mut(h);
            root_node.left = new_right;
            let ghost a2 = arena@;
            let ghost t0 = Shape::Fork { left: Box::new(b), at: h, right: Box::new(sr) };
            proof {
                lemma_graft_left(a0, s, sl.handles(), a1, b, a2);
                lemma_handles_in_store(a, a1);
                lemma_frame(a, a1, a2);
            }
            Self::update_size(arena, Some(h), Ghost(t0));
            proof {
                lemma_reshaped_is_relinked(a2, t0, arena@);
                lemma_untouched(a, a2, t0.handles(), arena@);
                lemma_relinked_twice(a0, sl.handles().insert(h), a2, t0.handles(), arena@, s.handles());
            }
            (new_left, Some(h), Ghost(a), Ghost(t0))
        }
    }

    // Makes one tree of two, the nodes of `l` before those of `r`. The root
    // of higher priority stays on top, that of `l` only if it is strictly
    // higher, and the other tree is merged into the subtree below it.
    fn merge(
        arena: &mut Slab<CTNode<(), T>>,
        l: Option<Handle>,
        Ghost(sl): Ghost<Shape>,
        r: Option<Handle>,
        Ghost(sr): Ghost<Shape>,
    ) -> (res: (Option<Handle>, Ghost<Shape>))
        requires
            old(arena).wf(),
            sl.held_by(old(arena)@),
            sr.held_by(old(arena)@),
            sl.top() == l,
            sr.top() == r,
            sl.handles().disjoint(sr.handles()),
            sl.decode(old(arena)@).counts_consistent(),
            sr.decode(old(arena)@).counts_consistent(),
        ensures
            final(arena).wf(),
            res.1@.held_by(final(arena)@),
            res.1@.top() == res.0,
            res.1@.decode(final(arena)@) == Tree::merge(sl.decode(old(arena)@), sr.decode(old(arena)@)),
            res.1@.decode(final(arena)@).counts_consistent(),
            res.1@.handles() =~= sl.handles().union(sr.handles()),
            relinked(old(arena)@, sl.handles().union(sr.handles()), final(arena)@),
        decreases sl.size() + sr.size(),
    {
        let (lh, rh) = match (l, r) {
            (Some(lh), Some(rh)) => (lh, rh),
            (None, _) => {
                proof {
                    assert(sl.handles() =~= Set::<Handle>::empty());
                }
                return (r, Ghost(sr));
            },
            (_, None) => {
                proof {
                    assert(sr.handles() =~= Set::<Handle>::empty());
                }
                return (l, Ghost(sl));
            },
        };
        let ghost a0 = arena@;
        let ghost region = sl.handles().union(sr.handles());
        proof {
            lemma_handles_in_store(sl, a0);
            lemma_handles_in_store(sr, a0);
        }
        let left_priority = arena.get(lh).priority;
        let right_priority = arena.get(rh).priority;
        if left_priority > right_priority {
            let below = arena.get(lh).right;
            let ghost part = sl.rhs().handles().union(sr.handles());
            let (new_l, Ghost(tm)) = Self::merge(arena, below, Ghost(sl.rhs()), r, Ghost(sr));
            let ghost a1 = arena@;
            let root_node = arena.get_mut(lh);
            root_node.right = new_l;
            let ghost a2 = arena@;
            let ghost t0 = Shape::Fork { left: Box::new(sl.lhs()), at: lh, right: Box::new(tm) };
            proof {
                lemma_graft_right(a0, sl, part, a1, tm, a2);
            }
            Self::update_size(arena, Some(lh), Ghost(t0));
            proof {
                lemma_reshaped_is_relinked(a2, t0, arena@);
                lemma_relinked_twice(a0, part.insert(lh), a2, t0.handles(), arena@, region);
            }
            (Some(lh), Ghost(t0))
        } else {
            let below = arena.get(rh).left;
            let ghost part = sl.handles().union(sr.lhs().handles());
            let (new_r, Ghost(tm)) = Self::merge(arena, l, Ghost(sl), below, Ghost(sr.lhs()));
            let ghost a1 = arena@;
            let root_node = arena.get_mut(rh);
            root_node.left = new_r;
            let ghost a2 = arena@;
            let ghost t0 = Shape::Fork { left: Box::new(tm), at: rh, right: Box::new(sr.rhs()) };
            proof {
                lemma_graft_left(a0, sr, part, a1, tm, a2);
            }
            Self::update_size(arena, Some(rh), Ghost(t0));
            proof {
                lemma_reshaped_is_relinked(a2, t0, arena@);
                lemma_relinked_twice(a0, part.insert(rh), a2, t0.handles(), arena@, region);
            }
            (Some(rh), Ghost(t0))
        }
    }

    // Sets the count of `node` to one more than the counts of its children.
    fn update_size(arena: &mut Slab<CTNode<(), T>>, node: Option<Handle>, Ghost(s): Ghost<Shape>)
        requires
            old(arena).wf(),
            s.held_by(old(arena)@),
            s.top() == node,
            s is Fork ==> s.lhs().decode(old(arena)@).counts_consistent() && s.rhs().decode(
                old(arena)@,
            ).counts_consistent(),
        ensures
            final(arena).wf(),
            s.held_by(final(arena)@),
            crate::misc::shape::reshaped(old(arena)@, s, final(arena)@, s),
            s.decode(final(arena)@) == match s.decode(old(arena)@) {
                Tree::Empty => Tree::Empty,
                Tree::Node { left, key, value, priority, right, .. } => Tree::mk(
                    *left,
                    key,
                    value,
                    priority,
                    *right,
                ),
            },
            s.decode(final(arena)@).counts_consistent(),
    {
        CartesianTree::<(), T>::update_count(arena, node, Ghost(s))
    }
}

impl<T> Default for ImplicitTreap<T> {
    fn default() -> (treap: Self)
        ensures
            treap.wf(),
            treap@ == Seq::<T>::empty(),
    {
        Self::new()
    }
}

impl<T> vstd::std_specs::core::IndexSpecImpl<usize> for ImplicitTreap<T> {
    /// Indexing asks for a position that holds a value.
    open spec fn index_req(&self, index: &usize) -> bool {
        self.wf() && *index < self@.len()
    }
}

impl<T> std::ops::Index<usize> for ImplicitTreap<T> {
    type Output = T;

    /// The value at position `pos`.
    fn index(&self, pos: usize) -> (r: &T)
        ensures
            *r == self@[pos as int],
    {
        proof {
            lemma_count_is_values_len(self.tree());
            lemma_size_fits(self.shape@, &self.arena);
            lemma_handle_at_value(self.shape@, self.arena@, pos as nat);
            lemma_handles_in_store(self.shape@, self.arena@);
        }
        let node = Self::find(&self.arena, self.root, Ghost(self.shape@), pos + 1);
        &self.arena.get(node.unwrap()).value
    }
}

impl<T> ImplicitTreap<T> {
    /// The value at position `pos`, to be written.
    pub fn index_mut(&mut self, pos: usize) -> (r: &mut T)
        requires
            old(self).wf(),
            pos < old(self)@.len(),
        ensures
            *r == old(self)@[pos as int],
            final(self)@ == old(self)@.update(pos as int, *final(r)),
            final(self).wf(),
    {
        proof {
            lemma_count_is_values_len(self.tree());
            lemma_size_fits(self.shape@, &self.arena);
            lemma_handle_at_value(self.shape@, self.arena@, pos as nat);
            lemma_handles_in_store(self.shape@, self.arena@);
        }
        let node = Self::find(&self.arena, self.root, Ghost(self.shape@), pos + 1);
        let slot = self.arena.get_mut(node.unwrap());
        let r = &mut slot.value;
        proof {
            let was = old(self).arena@[node.unwrap()];
            let now = CTNode {
                key: was.key,
                value: *final(r),
                priority: was.priority,
                left: was.left,
                right: was.right,
                count: was.count,
            };
            let after = old(self).arena@.insert(node.unwrap(), now);
            lemma_value_written(self.shape@, old(self).arena@, pos as nat, after);
        }
        r
    }
}

} // verus!
