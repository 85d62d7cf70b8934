//! A treap keyed by an ordered key, with its nodes in a slot store.

use crate::misc::entries::{
    entry_at, has_key, keys_increasing, lemma_rank_unique, lemma_with_entry_increasing, lookup,
    position, rank_of, with_entry, without_key, without_position,
};
use crate::misc::key_order::{compare, total_order, Rel};
use crate::misc::tree_laws::{
    lemma_count_is_len, lemma_find, lemma_insert_keeps_treap, lemma_ordered_iff_increasing,
    lemma_rank, lemma_remove_at_keeps_treap, lemma_remove_keeps_treap, lemma_select,
};
use crate::misc::shape::{
    lemma_count_is_size, lemma_frame, lemma_handles_in_store, lemma_left_replaced,
    lemma_reshaped_twice, lemma_right_replaced, lemma_size_fits, reshaped, Shape,
};
use crate::misc::slab::{Handle, Slab};
use crate::misc::tree_model::Tree;
use vstd::prelude::*;

verus! {

/// The rank of a node in the heap order: no child has a higher priority
/// than its parent.
pub type Priority = u64;

/// A node of a treap: an entry, the links to its children, and the number of
/// nodes in its subtree.
pub struct CTNode<K, V> {
    pub(crate) key: K,
    pub(crate) value: V,
    pub(crate) priority: Priority,
    pub(crate) left: Option<Handle>,
    pub(crate) right: Option<Handle>,
    pub(crate) count: usize,
}

/// A binary search tree by key that is a max-heap by priority.
pub struct CartesianTree<K, V> {
    root: Option<Handle>,
    arena: Slab<CTNode<K, V>>,
    shape: Ghost<Shape>,
}

impl<K, V> View for CartesianTree<K, V> {
    type V = Seq<(K, V, Priority)>;

    /// The entries in key order, each as key, value and priority.
    open spec fn view(&self) -> Seq<(K, V, Priority)> {
        self.tree().in_order()
    }
}

impl<K, V> CartesianTree<K, V> {
    /// The tree that the nodes form.
    pub closed spec fn tree(&self) -> Tree<K, V> {
        self.shape@.decode(self.arena@)
    }

    /// The store holds the nodes of the tree and nothing else, and the root
    /// handle is that of the tree's root.
    pub closed spec fn stored(&self) -> bool {
        &&& self.arena.wf()
        &&& self.shape@.held_by(self.arena@)
        &&& self.shape@.top() == self.root
        &&& self.arena@.dom() =~= self.shape@.handles()
    }
}

impl<K: Ord, V> Default for CartesianTree<K, V> {
    fn default() -> (tree: Self)
        ensures
            tree.wf(),
            tree@ == Seq::<(K, V, Priority)>::empty(),
    {
        Self::new()
    }
}

impl<K: Ord, V> CartesianTree<K, V> {
    /// The nodes form a treap: a search tree by key, a max-heap by
    /// priority, each node counting the nodes of its subtree.
    pub open spec fn wf(&self) -> bool {
        self.stored() && self.tree().is_treap()
    }

    /// The entries of a tree are in strictly increasing key order.
    pub proof fn lemma_entries_increasing(&self)
        requires
            self.wf(),
            total_order::<K>(),
        ensures
            keys_increasing(self@),
    {
        lemma_ordered_iff_increasing(self.tree());
    }

    /// In a tree, no child has a higher priority than its parent, and every
    /// node's count is one more than the counts of its children.
    pub proof fn lemma_heap_and_counts(&self)
        requires
            self.wf(),
        ensures
            self.tree().heap_ordered(),
            self.tree().counts_consistent(),
            self.tree().cnt() == self@.len(),
    {
        lemma_count_is_len(self.tree());
    }

    /// The entry at the rank of a key has that key, and the key of the
    /// entry at a rank has that rank.
    pub proof fn lemma_rank_select_duality(&self, key: K, r: nat)
        requires
            self.wf(),
            total_order::<K>(),
        ensures
            has_key(self@, key) ==> position(self@, key) is Some && entry_at(
                self@,
                position(self@, key).unwrap(),
            ) is Some && entry_at(self@, position(self@, key).unwrap()).unwrap().0 == key,
            r < self@.len() ==> entry_at(self@, r) is Some && position(
                self@,
                entry_at(self@, r).unwrap().0,
            ) == Some(r),
    {
        self.lemma_entries_increasing();
        if r < self@.len() {
            lemma_rank_unique(self@, self@[r as int].0, r as int);
        }
    }

    /// Inserting under a key that is present replaces the value and keeps
    /// the priority that the key was first given; no entry is added.
    pub proof fn lemma_insert_present_keeps_priority(&self, key: K, value: V, priority: Priority)
        requires
            self.wf(),
            total_order::<K>(),
            has_key(self@, key),
        ensures
            lookup(with_entry(self@, key, value, priority), key) == Some(
                (value, lookup(self@, key).unwrap().1),
            ),
            with_entry(self@, key, value, priority).len() == self@.len(),
    {
        self.lemma_entries_increasing();
        lemma_with_entry_increasing(self@, key, value, priority);
        lemma_rank_unique(with_entry(self@, key, value, priority), key, rank_of(self@, key));
    }

    /// Inserting an absent key and removing it again gives back what was
    /// inserted and leaves the entries as they were.
    pub proof fn lemma_insert_remove_inverse(&self, key: K, value: V, priority: Priority)
        requires
            self.wf(),
            total_order::<K>(),
            !has_key(self@, key),
        ensures
            lookup(with_entry(self@, key, value, priority), key) == Some((value, priority)),
            without_key(with_entry(self@, key, value, priority), key) == self@,
    {
        self.lemma_entries_increasing();
        lemma_with_entry_increasing(self@, key, value, priority);
        crate::misc::entries::lemma_count_below_le(self@, key);
        let c = crate::misc::entries::count_below(self@, key) as int;
        let grown = with_entry(self@, key, value, priority);
        assert(grown[c] == (key, value, priority));
        lemma_rank_unique(grown, key, c);
        assert(grown.remove(c) =~= self@);
    }

    // Whether every key of the subtree is after `lo` and before `hi`, where
    // given, and between the keys of its ancestors in the subtree.
    fn order_holds(
        arena: &Slab<CTNode<K, V>>,
        root: Option<Handle>,
        Ghost(s): Ghost<Shape>,
        lo: Option<&K>,
        hi: Option<&K>,
    ) -> (ok: bool)
        requires
            s.held_by(arena@),
            s.top() == root,
            total_order::<K>(),
        ensures
            ok == s.decode(arena@).between(
                match lo {
                    Some(l) => Some(*l),
                    None => None,
                },
                match hi {
                    Some(h) => Some(*h),
                    None => None,
                },
            ),
        decreases s,
    {
        let h = match root {
            Some(h) => h,
            None => {
                return true;
            },
        };
        let node = arena.get(h);
        let above = match lo {
            Some(l) => match compare(l, &node.key) {
                Rel::Less => true,
                _ => false,
            },
            None => true,
        };
        let below = match hi {
            Some(h) => match compare(&node.key, h) {
                Rel::Less => true,
                _ => false,
            },
            None => true,
        };
        let left_ok = Self::order_holds(arena, node.left, Ghost(s.lhs()), lo, Some(&node.key));
        let right_ok = Self::order_holds(arena, node.right, Ghost(s.rhs()), Some(&node.key), hi);
        above && below && left_ok && right_ok
    }

    /// Whether the nodes form a treap, found by going through all of them.
    /// It is true of every tree that the functions of this type have made.
    pub fn holds_invariants(&self) -> (ok: bool)
        requires
            self.stored(),
            total_order::<K>(),
        ensures
            ok == self.tree().is_treap(),
    {
        proof {
            crate::misc::tree_laws::lemma_between(self.tree(), None, None);
        }
        let heap = Self::heap_holds(&self.arena, self.root, Ghost(self.shape@));
        let order = Self::order_holds(&self.arena, self.root, Ghost(self.shape@), None, None);
        heap && order
    }

    /// An empty tree.
    pub fn new() -> (tree: Self)
        ensures
            tree.wf(),
            tree@ == Seq::<(K, V, Priority)>::empty(),
    {
        let tree = Self { root: None, arena: Slab::new(), shape: Ghost(Shape::Leaf) };
        proof {
            assert(tree.arena@.dom() =~= Shape::Leaf.handles());
        }
        tree
    }

    /// Whether the tree holds no entry.
    pub fn is_empty(&self) -> (b: bool)
        requires
            self.wf(),
        ensures
            b == (self@.len() == 0),
    {
        proof {
            crate::misc::tree_laws::lemma_in_order_len(self.tree());
        }
        self.root.is_none()
    }

    /// The number of entries.
    pub fn len(&self) -> (n: usize)
        requires
            self.wf(),
        ensures
            n == self@.len(),
    {
        proof {
            lemma_count_is_len(self.tree());
        }
        Self::count_at(&self.arena, self.root, Ghost(self.shape@))
    }

    /// The value and priority stored under `key`, if any.
    pub fn get(&self, key: &K) -> (r: Option<(&V, Priority)>)
        requires
            self.wf(),
            total_order::<K>(),
        ensures
            match r {
                Some((v, p)) => lookup(self@, *key) == Some((*v, p)),
                None => lookup(self@, *key) is None,
            },
    {
        proof {
            lemma_find(self.tree(), *key);
        }
        Self::search(&self.arena, self.root, Ghost(self.shape@), key)
    }

    /// The rank of `key`: the position it has among the keys in order.
    pub fn index(&self, key: K) -> (r: Option<usize>)
        requires
            self.wf(),
            total_order::<K>(),
        ensures
            match r {
                Some(i) => position(self@, key) == Some(i as nat),
                None => position(self@, key) is None,
            },
    {
        proof {
            lemma_rank(self.tree(), key);
        }
        Self::index_of(&self.arena, self.root, Ghost(self.shape@), key)
    }

    /// The entry of rank `k`: the one at position `k` in key order.
    pub fn get_index(&self, k: usize) -> (r: Option<(&K, &V, Priority)>)
        requires
            self.wf(),
        ensures
            match r {
                Some((key, v, p)) => entry_at(self@, k as nat) == Some((*key, *v, p)),
                None => entry_at(self@, k as nat) is None,
            },
    {
        proof {
            lemma_select(self.tree(), k as nat);
        }
        Self::kth_largest_of(&self.arena, self.root, Ghost(self.shape@), k)
    }

    /// Puts `value` under `key`. A key that is present keeps its priority
    /// and only has its value replaced; a new key gets `priority`.
    pub fn insert(&mut self, key: K, value: V, priority: Priority)
        requires
            old(self).wf(),
            total_order::<K>(),
        ensures
            final(self).wf(),
            final(self)@ == with_entry(old(self)@, key, value, priority),
            final(self).tree() == old(self).tree().insert(key, value, priority),
    {
        proof {
            lemma_insert_keeps_treap(self.tree(), key, value, priority);
        }
        let root = self.root;
        let ghost s = self.shape@;
        let (new_root, Ghost(t)) = Self::insert_kv(&mut self.arena, root, Ghost(s), key, value, priority);
        self.root = new_root;
        self.shape = Ghost(t);
    }

    /// Removes `key` and gives the value and priority that were stored
    /// under it, if any.
    pub fn remove(&mut self, key: &K) -> (r: Option<(V, Priority)>)
        requires
            old(self).wf(),
            total_order::<K>(),
        ensures
            final(self).wf(),
            final(self)@ == without_key(old(self)@, *key),
            final(self).tree() == old(self).tree().remove(*key),
            r == lookup(old(self)@, *key),
    {
        proof {
            lemma_remove_keeps_treap(self.tree(), *key);
            lemma_find(self.tree(), *key);
        }
        let root = self.root;
        let ghost s = self.shape@;
        let (new_root, value_and_priority, Ghost(t)) = Self::remove_key(&mut self.arena, root, Ghost(s), key);
        self.root = new_root;
        self.shape = Ghost(t);
        value_and_priority
    }

    /// Removes the entry of rank `k` and gives it, if there is one.
    pub fn remove_index(&mut self, k: usize) -> (r: Option<(K, V, Priority)>)
        requires
            old(self).wf(),
            total_order::<K>(),
        ensures
            final(self).wf(),
            final(self)@ == without_position(old(self)@, k as nat),
            final(self).tree() == old(self).tree().remove_at(k as nat),
            r == entry_at(old(self)@, k as nat),
    {
        proof {
            lemma_remove_at_keeps_treap(self.tree(), k as nat);
            lemma_select(self.tree(), k as nat);
        }
        let root = self.root;
        let ghost s = self.shape@;
        let (new_root, entry, Ghost(t)) = Self::remove_by_index(&mut self.arena, root, Ghost(s), k);
        self.root = new_root;
        self.shape = Ghost(t);
        entry
    }

    // Whether no node of the subtree is outranked by a child and every node
    // has the count that its children give it.
    pub(crate) fn heap_holds(arena: &Slab<CTNode<K, V>>, root: Option<Handle>, Ghost(s): Ghost<Shape>) -> (ok:
        bool)
        requires
            s.held_by(arena@),
            s.top() == root,
        ensures
            ok == s.decode(arena@).is_heap(),
        decreases s,
    {
        let h = match root {
            Some(h) => h,
            None => {
                return true;
            },
        };
        proof {
            lemma_handles_in_store(s, arena@);
            lemma_handles_in_store(s.lhs(), arena@);
            lemma_handles_in_store(s.rhs(), arena@);
        }
        let node = arena.get(h);
        let (left_count, left_below) = match node.left {
            Some(l) => (arena.get(l).count, arena.get(l).priority <= node.priority),
            None => (0, true),
        };
        let (right_count, right_below) = match node.right {
            Some(r) => (arena.get(r).count, arena.get(r).priority <= node.priority),
            None => (0, true),
        };
        // The counts are added in a wider type: they are not known to be true.
        let counted = node.count as u128 == 1 + left_count as u128 + right_count as u128;
        let here = left_below && right_below && counted;
        let left_ok = Self::heap_holds(arena, node.left, Ghost(s.lhs()));
        let right_ok = Self::heap_holds(arena, node.right, Ghost(s.rhs()));
        here && left_ok && right_ok
    }

    // The count kept at `node`; 0 for no node.
    pub(crate) fn count_at(arena: &Slab<CTNode<K, V>>, node: Option<Handle>, Ghost(s): Ghost<Shape>) -> (n:
        usize)
        requires
            s.held_by(arena@),
            s.top() == node,
        ensures
            n == s.decode(arena@).cnt(),
    {
        match node {
            Some(h) => arena.get(h).count,
            None => 0,
        }
    }

    // Sets the count of `root` to one more than the counts of its children.
    pub(crate) fn update_count(
        arena: &mut Slab<CTNode<K, V>>,
        root: Option<Handle>,
        Ghost(s): Ghost<Shape>,
    )
        requires
            old(arena).wf(),
            s.held_by(old(arena)@),
            s.top() == root,
            s is Fork ==> s.lhs().decode(old(arena)@).counts_consistent() && s.rhs().decode(
                old(arena)@,
            ).counts_consistent(),
        ensures
            final(arena).wf(),
            s.held_by(final(arena)@),
            reshaped(old(arena)@, s, final(arena)@, s),
            s.decode(final(arena)@) == match s.decode(old(arena)@) {
                Tree::Empty => Tree::Empty,
                Tree::Node { left, key, value, priority, right, .. } => Tree::mk(
                    *left,
                    key,
                    value,
                    priority,
                    *right,
                ),
            },
            s.decode(final(arena)@).counts_consistent(),
    {
        if let Some(h) = root {
            proof {
                lemma_handles_in_store(s, arena@);
                lemma_size_fits(s, arena);
                lemma_size_fits(s.lhs(), arena);
                lemma_size_fits(s.rhs(), arena);
                lemma_count_is_size(s.lhs().decode(arena@));
                lemma_count_is_size(s.rhs().decode(arena@));
            }
            let node = arena.get(h);
            let left_count = Self::count_at(arena, node.left, Ghost(s.lhs()));
            let right_count = Self::count_at(arena, node.right, Ghost(s.rhs()));
            let updated_count = 1 + left_count + right_count;
            let node = arena.get_mut(h);
            node.count = updated_count;
            proof {
                lemma_frame(s.lhs(), old(arena)@, arena@);
                lemma_frame(s.rhs(), old(arena)@, arena@);
            }
        }
    }

    // Makes the left child of `root` the root of the subtree and `root` its
    // right child. Without a left child nothing happens and there is no result.
    fn rotate_right(arena: &mut Slab<CTNode<K, V>>, root: Option<Handle>, Ghost(s): Ghost<Shape>) -> (r:
        Option<Handle>)
        requires
            old(arena).wf(),
            s.held_by(old(arena)@),
            s.top() == root,
            s.lhs() is Fork ==> s.lhs().rhs().decode(old(arena)@).counts_consistent() && s.rhs().decode(
                old(arena)@,
            ).counts_consistent(),
        ensures
            final(arena).wf(),
            r == if s.lhs() is Fork {
                s.rotated_right().top()
            } else {
                None
            },
            s.rotated_right().held_by(final(arena)@),
            s.rotated_right().decode(final(arena)@) == s.decode(old(arena)@).rotated_right(),
            reshaped(old(arena)@, s, final(arena)@, s.rotated_right()),
            r is None ==> final(arena)@ == old(arena)@,
    {
        proof {
            lemma_handles_in_store(s, arena@);
        }
        let root_idx = match root {
            Some(h) => h,
            None => {
                return None;
            },
        };
        let left_idx = match arena.get(root_idx).left {
            Some(l) => l,
            None => {
                return None;
            },
        };
        let ghost ll = s.lhs().lhs();
        let ghost lr = s.lhs().rhs();
        let ghost sr = s.rhs();
        let ghost demoted = Shape::Fork { left: Box::new(lr), at: root_idx, right: Box::new(sr) };
        assert(s.lhs().held_by(arena@));
        assert(ll.held_by(arena@) && lr.held_by(arena@) && sr.held_by(arena@));

        // The left child's right subtree becomes the root's left subtree,
        // and the root the left child's right child.
        let left_right = arena.get(left_idx).right;
        let left_node = arena.get_mut(left_idx);
        left_node.right = Some(root_idx);
        let root_node = arena.get_mut(root_idx);
        root_node.left = left_right;
        proof {
            lemma_frame(ll, old(arena)@, arena@);
            lemma_frame(lr, old(arena)@, arena@);
            lemma_frame(sr, old(arena)@, arena@);
        }
        let ghost mid = arena@;

        Self::update_count(arena, root, Ghost(demoted));
        proof {
            lemma_handles_in_store(demoted, arena@);
            lemma_frame(ll, mid, arena@);
            let before = s.decode(old(arena)@);
            let left = s.lhs().decode(old(arena)@);
            assert(before->left == left);
            assert(left->left == ll.decode(old(arena)@) && left->right == lr.decode(old(arena)@));
            assert(demoted.decode(mid)->left == lr.decode(mid));
            assert(demoted.decode(mid)->right == sr.decode(mid));
            assert(s.rotated_right().decode(arena@)->right == demoted.decode(arena@));
        }
        Some(left_idx)
    }

    // Makes the right child of `root` the root of the subtree and `root` its
    // left child. Without a right child nothing happens and there is no result.
    fn rotate_left(arena: &mut Slab<CTNode<K, V>>, root: Option<Handle>, Ghost(s): Ghost<Shape>) -> (r:
        Option<Handle>)
        requires
            old(arena).wf(),
            s.held_by(old(arena)@),
            s.top() == root,
            s.rhs() is Fork ==> s.rhs().lhs().decode(old(arena)@).counts_consistent() && s.lhs().decode(
                old(arena)@,
            ).counts_consistent(),
        ensures
            final(arena).wf(),
            r == if s.rhs() is Fork {
                s.rotated_left().top()
            } else {
                None
            },
            s.rotated_left().held_by(final(arena)@),
            s.rotated_left().decode(final(arena)@) == s.decode(old(arena)@).rotated_left(),
            reshaped(old(arena)@, s, final(arena)@, s.rotated_left()),
            r is None ==> final(arena)@ == old(arena)@,
    {
        proof {
            lemma_handles_in_store(s, arena@);
        }
        let root_idx = match root {
            Some(h) => h,
            None => {
                return None;
            },
        };
        let right_idx = match arena.get(root_idx).right {
            Some(r) => r,
            None => {
                return None;
            },
        };
        let ghost rl = s.rhs().lhs();
        let ghost rr = s.rhs().rhs();
        let ghost sl = s.lhs();
        let ghost demoted = Shape::Fork { left: Box::new(sl), at: root_idx, right: Box::new(rl) };
        assert(s.rhs().held_by(arena@));
        assert(rl.held_by(arena@) && rr.held_by(arena@) && sl.held_by(arena@));

        // The right child's left subtree becomes the root's right subtree,
        // and the root the right child's left child.
        let right_left = arena.get(right_idx).left;
        let right_node = arena.get_mut(right_idx);
        right_node.left = Some(root_idx);
        let root_node = arena.get_mut(root_idx);
        root_node.right = right_left;
        proof {
            lemma_frame(rl, old(arena)@, arena@);
            lemma_frame(rr, old(arena)@, arena@);
            lemma_frame(sl, old(arena)@, arena@);
        }
        let ghost mid = arena@;

        Self::update_count(arena, root, Ghost(demoted));
        proof {
            lemma_handles_in_store(demoted, arena@);
            lemma_frame(rr, mid, arena@);
            let before = s.decode(old(arena)@);
            let right = s.rhs().decode(old(arena)@);
            assert(before->right == right);
            assert(right->left == rl.decode(old(arena)@) && right->right == rr.decode(old(arena)@));
            assert(demoted.decode(mid)->left == sl.decode(mid));
            assert(demoted.decode(mid)->right == rl.decode(mid));
            assert(s.rotated_left().decode(arena@)->left == demoted.decode(arena@));
        }
        Some(right_idx)
    }

    // Puts `value` under `key` in the subtree of `root` and gives the
    // subtree's new root. A new key goes in as a leaf with `priority`; on
    // the way back up, a child that outranks its parent is rotated above it.
    fn insert_kv(
        arena: &mut Slab<CTNode<K, V>>,
        root: Option<Handle>,
        Ghost(s): Ghost<Shape>,
        key: K,
        value: V,
        priority: Priority,
    ) -> (r: (Option<Handle>, Ghost<Shape>))
        requires
            old(arena).wf(),
            s.held_by(old(arena)@),
            s.top() == root,
            s.decode(old(arena)@).counts_consistent(),
            total_order::<K>(),
        ensures
            final(arena).wf(),
            r.1@.held_by(final(arena)@),
            r.1@.top() == r.0,
            r.1@ is Fork,
            r.1@.decode(final(arena)@) == s.decode(old(arena)@).insert(key, value, priority),
            r.1@.decode(final(arena)@).counts_consistent(),
            reshaped(old(arena)@, s, final(arena)@, r.1@),
        decreases s,
    {
        let h = match root {
            Some(h) => h,
            None => {
                let node = CTNode { key, value, priority, left: None, right: None, count: 1 };
                let h = arena.insert(node);
                let ghost t = Shape::Fork { left: Box::new(Shape::Leaf), at: h, right: Box::new(Shape::Leaf) };
                proof {
                    assert(t.lhs() == Shape::Leaf && t.rhs() == Shape::Leaf);
                    assert(Shape::Leaf.held_by(arena@));
                    assert(Shape::Leaf.handles() =~= Set::<Handle>::empty());
                    assert(Shape::Leaf.decode(arena@) == Tree::<K, V>::Empty);
                    assert(s == Shape::Leaf);
                }
                return (Some(h), Ghost(t));
            },
        };
        let ghost sl = s.lhs();
        let ghost sr = s.rhs();
        proof {
            lemma_handles_in_store(s, arena@);
        }
        let node = arena.get(h);
        match compare(&key, &node.key) {
            // The key is there: its value is replaced, nothing else.
            Rel::Equal => {
                let node = arena.get_mut(h);
                node.value = value;
                proof {
                    lemma_frame(sl, old(arena)@, arena@);
                    lemma_frame(sr, old(arena)@, arena@);
                }
                (root, Ghost(s))
            },
            Rel::Less => {
                let left0 = node.left;
                let (left, Ghost(tl)) = Self::insert_kv(arena, left0, Ghost(sl), key, value, priority);
                let ghost mid = arena@;
                let root_node = arena.get_mut(h);
                root_node.left = left;
                let root_priority = root_node.priority;
                let ghost t0 = Shape::Fork { left: Box::new(tl), at: h, right: Box::new(sr) };
                proof {
                    lemma_left_replaced(old(arena)@, s, mid, tl, arena@);
                    lemma_handles_in_store(tl, arena@);
                }
                let ghost linked = arena@;
                let left_priority = arena.get(left.unwrap()).priority;
                if left_priority > root_priority {
                    let new_root = Self::rotate_right(arena, root, Ghost(t0));
                    let ghost turned = arena@;
                    Self::update_count(arena, new_root, Ghost(t0.rotated_right()));
                    proof {
                        lemma_reshaped_twice(old(arena)@, s, linked, t0, turned, t0.rotated_right());
                        lemma_reshaped_twice(
                            old(arena)@,
                            s,
                            turned,
                            t0.rotated_right(),
                            arena@,
                            t0.rotated_right(),
                        );
                    }
                    (new_root, Ghost(t0.rotated_right()))
                } else {
                    Self::update_count(arena, root, Ghost(t0));
                    proof {
                        lemma_reshaped_twice(old(arena)@, s, linked, t0, arena@, t0);
                    }
                    (root, Ghost(t0))
                }
            },
            Rel::Greater => {
                proof {
                    crate::misc::key_order::lemma_lt_asymmetric(node.key, key);
                }
                let right0 = node.right;
                let (right, Ghost(tr)) = Self::insert_kv(arena, right0, Ghost(sr), key, value, priority);
                let ghost mid = arena@;
                let root_node = arena.get_mut(h);
                root_node.right = right;
                let root_priority = root_node.priority;
                let ghost t0 = Shape::Fork { left: Box::new(sl), at: h, right: Box::new(tr) };
                proof {
                    lemma_right_replaced(old(arena)@, s, mid, tr, arena@);
                    lemma_handles_in_store(tr, arena@);
                }
                let ghost linked = arena@;
                let right_priority = arena.get(right.unwrap()).priority;
                if right_priority > root_priority {
                    let new_root = Self::rotate_left(arena, root, Ghost(t0));
                    let ghost turned = arena@;
                    Self::update_count(arena, new_root, Ghost(t0.rotated_left()));
                    proof {
                        lemma_reshaped_twice(old(arena)@, s, linked, t0, turned, t0.rotated_left());
                        lemma_reshaped_twice(
                            old(arena)@,
                            s,
                            turned,
                            t0.rotated_left(),
                            arena@,
                            t0.rotated_left(),
                        );
                    }
                    (new_root, Ghost(t0.rotated_left()))
                } else {
                    Self::update_count(arena, root, Ghost(t0));
                    proof {
                        lemma_reshaped_twice(old(arena)@, s, linked, t0, arena@, t0);
                    }
                    (root, Ghost(t0))
                }
            },
        }
    }

    // Removes `key` from the subtree of `root` and gives the subtree's new
    // root and what was stored under the key.
    fn remove_key(
        arena: &mut Slab<CTNode<K, V>>,
        root: Option<Handle>,
        Ghost(s): Ghost<Shape>,
        key: &K,
    ) -> (r: (Option<Handle>, Option<(V, Priority)>, Ghost<Shape>))
        requires
            old(arena).wf(),
            s.held_by(old(arena)@),
            s.top() == root,
            s.decode(old(arena)@).counts_consistent(),
            total_order::<K>(),
        ensures
            final(arena).wf(),
            r.2@.held_by(final(arena)@),
            r.2@.top() == r.0,
            r.2@.decode(final(arena)@) == s.decode(old(arena)@).remove(*key),
            r.2@.decode(final(arena)@).counts_consistent(),
            r.1 == s.decode(old(arena)@).find(*key),
            reshaped(old(arena)@, s, final(arena)@, r.2@),
        decreases s.size(),
    {
        proof {
            lemma_handles_in_store(s, arena@);
        }
        let root_idx = match root {
            Some(h) => h,
            None => {
                return (None, None, Ghost(s));
            },
        };
        let ghost sl = s.lhs();
        let ghost sr = s.rhs();
        let node = arena.get(root_idx);
        let left = node.left;
        let right = node.right;
        match compare(key, &node.key) {
            Rel::Less => {
                // It is in the left subtree, if anywhere.
                let (new_left, found, Ghost(tl)) = Self::remove_key(arena, left, Ghost(sl), key);
                let ghost mid = arena@;
                let root_node = arena.get_mut(root_idx);
                root_node.left = new_left;
                let ghost t = Shape::Fork { left: Box::new(tl), at: root_idx, right: Box::new(sr) };
                proof {
                    lemma_left_replaced(old(arena)@, s, mid, tl, arena@);
                }
                let ghost linked = arena@;
                Self::update_count(arena, root, Ghost(t));
                proof {
                    lemma_reshaped_twice(old(arena)@, s, linked, t, arena@, t);
                }
                return (root, found, Ghost(t));
            },
            Rel::Greater => {
                // It is in the right subtree, if anywhere.
                let (new_right, found, Ghost(tr)) = Self::remove_key(arena, right, Ghost(sr), key);
                let ghost mid = arena@;
                let root_node = arena.get_mut(root_idx);
                root_node.right = new_right;
                let ghost t = Shape::Fork { left: Box::new(sl), at: root_idx, right: Box::new(tr) };
                proof {
                    lemma_right_replaced(old(arena)@, s, mid, tr, arena@);
                }
                let ghost linked = arena@;
                Self::update_count(arena, root, Ghost(t));
                proof {
                    lemma_reshaped_twice(old(arena)@, s, linked, t, arena@, t);
                }
                return (root, found, Ghost(t));
            },
            Rel::Equal => {},
        }

        // The root is the one to go.
        let (l, r) = match (left, right) {
            (Some(l), Some(r)) => (l, r),
            _ => {
                // With at most one child, the child takes the root's place.
                let node = arena.remove(root_idx);
                let child = if left.is_some() {
                    left
                } else {
                    right
                };
                let ghost t = if left.is_some() {
                    sl
                } else {
                    sr
                };
                proof {
                    lemma_handles_in_store(t, old(arena)@);
                    lemma_frame(t, old(arena)@, arena@);
                }
                return (child, Some((node.value, node.priority)), Ghost(t));
            },
        };

        // With two children, the one of higher priority is rotated up, the
        // root goes down on the other side and is removed from there.
        proof {
            lemma_handles_in_store(sl, arena@);
            lemma_handles_in_store(sr, arena@);
            assert(sl.held_by(arena@) && sr.held_by(arena@));
            assert(sl.lhs().held_by(arena@) && sl.rhs().held_by(arena@));
            assert(sr.lhs().held_by(arena@) && sr.rhs().held_by(arena@));
            let whole = s.decode(arena@);
            assert(whole->left == sl.decode(arena@) && whole->right == sr.decode(arena@));
            assert(sl.decode(arena@)->left == sl.lhs().decode(arena@));
            assert(sl.decode(arena@)->right == sl.rhs().decode(arena@));
            assert(sr.decode(arena@)->left == sr.lhs().decode(arena@));
            assert(sr.decode(arena@)->right == sr.rhs().decode(arena@));
            assert(sl.size() == 1 + sl.lhs().size() + sl.rhs().size());
            assert(sr.size() == 1 + sr.lhs().size() + sr.rhs().size());
            assert(sl.decode(arena@).counts_consistent() && sr.decode(arena@).counts_consistent());
            assert(sl.lhs().decode(arena@).counts_consistent());
            assert(sl.rhs().decode(arena@).counts_consistent());
            assert(sr.lhs().decode(arena@).counts_consistent());
            assert(sr.rhs().decode(arena@).counts_consistent());
        }
        let left_priority = arena.get(l).priority;
        let right_priority = arena.get(r).priority;
        if left_priority < right_priority {
            let ghost turned = s.rotated_left();
            let ghost demoted = turned.lhs();
            let new_root = Self::rotate_left(arena, root, Ghost(s));
            let ghost a1 = arena@;
            proof {
                assert(demoted.held_by(a1) && turned.rhs().held_by(a1));
                assert(turned.decode(a1)->left == demoted.decode(a1));
                assert(turned.decode(a1)->right == turned.rhs().decode(a1));
                assert(demoted.size() == 1 + sl.size() + sr.lhs().size());
                assert(demoted.decode(a1)->left == demoted.lhs().decode(a1));
            }
            let new_root_idx = new_root.unwrap();
            let down = arena.get(new_root_idx).left;
            let (new_left, found, Ghost(tl)) = Self::remove_key(arena, down, Ghost(demoted), key);
            let ghost a2 = arena@;
            let root_node = arena.get_mut(new_root_idx);
            root_node.left = new_left;
            let ghost t = Shape::Fork { left: Box::new(tl), at: new_root_idx, right: Box::new(turned.rhs()) };
            proof {
                lemma_left_replaced(a1, turned, a2, tl, arena@);
                lemma_reshaped_twice(old(arena)@, s, a1, turned, arena@, t);
            }
            let ghost a3 = arena@;
            Self::update_count(arena, new_root, Ghost(t));
            proof {
                lemma_reshaped_twice(old(arena)@, s, a3, t, arena@, t);
            }
            (new_root, found, Ghost(t))
        } else {
            let ghost turned = s.rotated_right();
            let ghost demoted = turned.rhs();
            let new_root = Self::rotate_right(arena, root, Ghost(s));
            let ghost a1 = arena@;
            proof {
                assert(demoted.held_by(a1) && turned.lhs().held_by(a1));
                assert(turned.decode(a1)->right == demoted.decode(a1));
                assert(turned.decode(a1)->left == turned.lhs().decode(a1));
                assert(demoted.size() == 1 + sl.rhs().size() + sr.size());
                assert(demoted.decode(a1)->left == demoted.lhs().decode(a1));
                assert(demoted.lhs().held_by(a1));
            }
            let new_root_idx = new_root.unwrap();
            let down = arena.get(new_root_idx).right;
            let (new_right, found, Ghost(tr)) = Self::remove_key(arena, down, Ghost(demoted), key);
            let ghost a2 = arena@;
            let root_node = arena.get_mut(new_root_idx);
            root_node.right = new_right;
            let ghost t = Shape::Fork { left: Box::new(turned.lhs()), at: new_root_idx, right: Box::new(tr) };
            proof {
                lemma_right_replaced(a1, turned, a2, tr, arena@);
                lemma_reshaped_twice(old(arena)@, s, a1, turned, arena@, t);
            }
            let ghost a3 = arena@;
            Self::update_count(arena, new_root, Ghost(t));
            proof {
                lemma_reshaped_twice(old(arena)@, s, a3, t, arena@, t);
            }
            (new_root, found, Ghost(t))
        }
    }

    // Removes the entry of rank `k` from the subtree of `root` and gives the
    // subtree's new root and the entry.
    fn remove_by_index(
        arena: &mut Slab<CTNode<K, V>>,
        root: Option<Handle>,
        Ghost(s): Ghost<Shape>,
        k: usize,
    ) -> (r: (Option<Handle>, Option<(K, V, Priority)>, Ghost<Shape>))
        requires
            old(arena).wf(),
            s.held_by(old(arena)@),
            s.top() == root,
            s.decode(old(arena)@).counts_consistent(),
        ensures
            final(arena).wf(),
            r.2@.held_by(final(arena)@),
            r.2@.top() == r.0,
            r.2@.decode(final(arena)@) == s.decode(old(arena)@).remove_at(k as nat),
            r.2@.decode(final(arena)@).counts_consistent(),
            r.1 == s.decode(old(arena)@).select(k as nat),
            reshaped(old(arena)@, s, final(arena)@, r.2@),
        decreases s.size(),
    {
        proof {
            lemma_handles_in_store(s, arena@);
        }
        let root_idx = match root {
            Some(h) => h,
            None => {
                return (None, None, Ghost(s));
            },
        };
        let ghost sl = s.lhs();
        let ghost sr = s.rhs();
        let node = arena.get(root_idx);
        let left = node.left;
        let right = node.right;
        let left_count = Self::count_at(arena, left, Ghost(sl));
        let side = if k < left_count {
            Rel::Less
        } else if k > left_count {
            Rel::Greater
        } else {
            Rel::Equal
        };
        match side {
            Rel::Less => {
                // It is in the left subtree, if anywhere.
                let (new_left, found, Ghost(tl)) = Self::remove_by_index(arena, left, Ghost(sl), k);
                let ghost mid = arena@;
                let root_node = arena.get_mut(root_idx);
                root_node.left = new_left;
                let ghost t = Shape::Fork { left: Box::new(tl), at: root_idx, right: Box::new(sr) };
                proof {
                    lemma_left_replaced(old(arena)@, s, mid, tl, arena@);
                }
                let ghost linked = arena@;
                Self::update_count(arena, root, Ghost(t));
                proof {
                    lemma_reshaped_twice(old(arena)@, s, linked, t, arena@, t);
                }
                return (root, found, Ghost(t));
            },
            Rel::Greater => {
                // It is in the right subtree, if anywhere.
                let (new_right, found, Ghost(tr)) = Self::remove_by_index(arena, right, Ghost(sr), k - left_count - 1);
                let ghost mid = arena@;
                let root_node = arena.get_mut(root_idx);
                root_node.right = new_right;
                let ghost t = Shape::Fork { left: Box::new(sl), at: root_idx, right: Box::new(tr) };
                proof {
                    lemma_right_replaced(old(arena)@, s, mid, tr, arena@);
                }
                let ghost linked = arena@;
                Self::update_count(arena, root, Ghost(t));
                proof {
                    lemma_reshaped_twice(old(arena)@, s, linked, t, arena@, t);
                }
                return (root, found, Ghost(t));
            },
            Rel::Equal => {},
        }

        // The root is the one to go.
        let (l, r) = match (left, right) {
            (Some(l), Some(r)) => (l, r),
            _ => {
                // With at most one child, the child takes the root's place.
                let node = arena.remove(root_idx);
                let child = if left.is_some() {
                    left
                } else {
                    right
                };
                let ghost t = if left.is_some() {
                    sl
                } else {
                    sr
                };
                proof {
                    lemma_handles_in_store(t, old(arena)@);
                    lemma_frame(t, old(arena)@, arena@);
                }
                return (child, Some((node.key, node.value, node.priority)), Ghost(t));
            },
        };

        // With two children, the one of higher priority is rotated up, the
        // root goes down on the other side and is removed from there.
        proof {
            lemma_handles_in_store(sl, arena@);
            lemma_handles_in_store(sr, arena@);
            assert(sl.held_by(arena@) && sr.held_by(arena@));
            assert(sl.lhs().held_by(arena@) && sl.rhs().held_by(arena@));
            assert(sr.lhs().held_by(arena@) && sr.rhs().held_by(arena@));
            let whole = s.decode(arena@);
            assert(whole->left == sl.decode(arena@) && whole->right == sr.decode(arena@));
            assert(sl.decode(arena@)->left == sl.lhs().decode(arena@));
            assert(sl.decode(arena@)->right == sl.rhs().decode(arena@));
            assert(sr.decode(arena@)->left == sr.lhs().decode(arena@));
            assert(sr.decode(arena@)->right == sr.rhs().decode(arena@));
            assert(sl.size() == 1 + sl.lhs().size() + sl.rhs().size());
            assert(sr.size() == 1 + sr.lhs().size() + sr.rhs().size());
            assert(sl.decode(arena@).counts_consistent() && sr.decode(arena@).counts_consistent());
            assert(sl.lhs().decode(arena@).counts_consistent());
            assert(sl.rhs().decode(arena@).counts_consistent());
            assert(sr.lhs().decode(arena@).counts_consistent());
            assert(sr.rhs().decode(arena@).counts_consistent());
        }
        let left_priority = arena.get(l).priority;
        let right_priority = arena.get(r).priority;
        if left_priority < right_priority {
            let ghost turned = s.rotated_left();
            let ghost demoted = turned.lhs();
            let new_root = Self::rotate_left(arena, root, Ghost(s));
            let ghost a1 = arena@;
            proof {
                assert(demoted.held_by(a1) && turned.rhs().held_by(a1));
                assert(turned.decode(a1)->left == demoted.decode(a1));
                assert(turned.decode(a1)->right == turned.rhs().decode(a1));
                assert(demoted.size() == 1 + sl.size() + sr.lhs().size());
                assert(demoted.decode(a1)->left == demoted.lhs().decode(a1));
            }
            let new_root_idx = new_root.unwrap();
            let down = arena.get(new_root_idx).left;
            let (new_left, found, Ghost(tl)) = Self::remove_by_index(arena, down, Ghost(demoted), k);
            let ghost a2 = arena@;
            let root_node = arena.get_mut(new_root_idx);
            root_node.left = new_left;
            let ghost t = Shape::Fork { left: Box::new(tl), at: new_root_idx, right: Box::new(turned.rhs()) };
            proof {
                lemma_left_replaced(a1, turned, a2, tl, arena@);
                lemma_reshaped_twice(old(arena)@, s, a1, turned, arena@, t);
            }
            let ghost a3 = arena@;
            Self::update_count(arena, new_root, Ghost(t));
            proof {
                lemma_reshaped_twice(old(arena)@, s, a3, t, arena@, t);
            }
            (new_root, found, Ghost(t))
        } else {
            let ghost turned = s.rotated_right();
            let ghost demoted = turned.rhs();
            let new_root = Self::rotate_right(arena, root, Ghost(s));
            let ghost a1 = arena@;
            proof {
                assert(demoted.held_by(a1) && turned.lhs().held_by(a1));
                assert(turned.decode(a1)->right == demoted.decode(a1));
                assert(turned.decode(a1)->left == turned.lhs().decode(a1));
                assert(demoted.size() == 1 + sl.rhs().size() + sr.size());
                assert(demoted.decode(a1)->left == demoted.lhs().decode(a1));
                assert(demoted.lhs().held_by(a1));
            }
            let new_root_idx = new_root.unwrap();
            let down = arena.get(new_root_idx).right;
            let down_left = arena.get(down.unwrap()).left;
            let down_rank = Self::count_at(arena, down_left, Ghost(demoted.lhs()));
            let (new_right, found, Ghost(tr)) = Self::remove_by_index(arena, down, Ghost(demoted), down_rank);
            let ghost a2 = arena@;
            let root_node = arena.get_mut(new_root_idx);
            root_node.right = new_right;
            let ghost t = Shape::Fork { left: Box::new(turned.lhs()), at: new_root_idx, right: Box::new(tr) };
            proof {
                lemma_right_replaced(a1, turned, a2, tr, arena@);
                lemma_reshaped_twice(old(arena)@, s, a1, turned, arena@, t);
            }
            let ghost a3 = arena@;
            Self::update_count(arena, new_root, Ghost(t));
            proof {
                lemma_reshaped_twice(old(arena)@, s, a3, t, arena@, t);
            }
            (new_root, found, Ghost(t))
        }
    }

    // Searching for a key is a binary search down the tree.
    fn search<'a>(
        arena: &'a Slab<CTNode<K, V>>,
        root: Option<Handle>,
        Ghost(s): Ghost<Shape>,
        key: &K,
    ) -> (r: Option<(&'a V, Priority)>)
        requires
            s.held_by(arena@),
            s.top() == root,
            total_order::<K>(),
        ensures
            match r {
                Some((v, p)) => s.decode(arena@).find(*key) == Some((*v, p)),
                None => s.decode(arena@).find(*key) is None,
            },
        decreases s,
    {
        match root {
            None => None,
            Some(h) => {
                let node = arena.get(h);
                match compare(key, &node.key) {
                    Rel::Equal => Some((&node.value, node.priority)),
                    Rel::Greater => {
                        proof {
                            crate::misc::key_order::lemma_lt_asymmetric(node.key, *key);
                        }
                        Self::search(arena, node.right, Ghost(s.rhs()), key)
                    },
                    Rel::Less => Self::search(arena, node.left, Ghost(s.lhs()), key),
                }
            },
        }
    }

    // The rank of the key among the subtree's keys.
    fn index_of(arena: &Slab<CTNode<K, V>>, root: Option<Handle>, Ghost(s): Ghost<Shape>, key: K) -> (r:
        Option<usize>)
        requires
            s.held_by(arena@),
            s.top() == root,
            s.decode(arena@).counts_consistent(),
            total_order::<K>(),
        ensures
            match r {
                Some(i) => s.decode(arena@).rank(key) == Some(i as nat) && i < s.size(),
                None => s.decode(arena@).rank(key) is None,
            },
        decreases s,
    {
        match root {
            None => None,
            Some(h) => {
                let node = arena.get(h);
                proof {
                    lemma_size_fits(s, arena);
                    lemma_size_fits(s.lhs(), arena);
                    lemma_size_fits(s.rhs(), arena);
                    lemma_count_is_size(s.lhs().decode(arena@));
                    lemma_count_is_size(s.rhs().decode(arena@));
                }
                let left_count = Self::count_at(arena, node.left, Ghost(s.lhs()));
                match compare(&key, &node.key) {
                    // Exactly the entries of the left subtree come before the root.
                    Rel::Equal => Some(left_count),
                    // Past the left subtree and the root.
                    Rel::Greater => {
                        proof {
                            crate::misc::key_order::lemma_lt_asymmetric(node.key, key);
                        }
                        match Self::index_of(arena, node.right, Ghost(s.rhs()), key) {
                            Some(i) => Some(i + 1 + left_count),
                            None => None,
                        }
                    },
                    Rel::Less => Self::index_of(arena, node.left, Ghost(s.lhs()), key),
                }
            },
        }
    }

    // The entry of rank `k` among the subtree's entries.
    fn kth_largest_of<'a>(
        arena: &'a Slab<CTNode<K, V>>,
        root: Option<Handle>,
        Ghost(s): Ghost<Shape>,
        k: usize,
    ) -> (r: Option<(&'a K, &'a V, Priority)>)
        requires
            s.held_by(arena@),
            s.top() == root,
        ensures
            match r {
                Some((key, v, p)) => s.decode(arena@).select(k as nat) == Some((*key, *v, p)),
                None => s.decode(arena@).select(k as nat) is None,
            },
        decreases s,
    {
        match root {
            None => None,
            Some(h) => {
                let node = arena.get(h);
                let left_count = Self::count_at(arena, node.left, Ghost(s.lhs()));
                if k == left_count {
                    Some((&node.key, &node.value, node.priority))
                } else if k < left_count {
                    Self::kth_largest_of(arena, node.left, Ghost(s.lhs()), k)
                } else {
                    Self::kth_largest_of(arena, node.right, Ghost(s.rhs()), k - left_count - 1)
                }
            },
        }
    }
}

/// A priority from the thread's random generator.
///
/// Calls `rand::thread_rng` and draws a `u64` with `Rng::gen`. What is
/// drawn depends on chance, so nothing is claimed of it. `thread_rng`
/// panics where the system's source of randomness cannot be had, which no
/// argument decides.
#[verifier::external_body]
fn random_priority() -> (priority: Priority) {
    rand::Rng::gen(&mut rand::thread_rng())
}

/// A treap that draws the priorities itself.
pub struct Treap<K, V> {
    tree: CartesianTree<K, V>,
}

impl<K, V> View for Treap<K, V> {
    type V = Seq<(K, V, Priority)>;

    /// The entries in key order, each with the priority drawn for it.
    open spec fn view(&self) -> Seq<(K, V, Priority)> {
        self.inner()@
    }
}

impl<K, V> Treap<K, V> {
    /// The tree that holds the entries.
    pub closed spec fn inner(&self) -> CartesianTree<K, V> {
        self.tree
    }
}

impl<K: Ord, V> Default for Treap<K, V> {
    fn default() -> (treap: Self)
        ensures
            treap.wf(),
            treap@ == Seq::<(K, V, Priority)>::empty(),
    {
        Self::new()
    }
}

impl<K: Ord, V> Treap<K, V> {
    /// The tree that holds the entries is a treap.
    pub open spec fn wf(&self) -> bool {
        self.inner().wf()
    }

    /// An empty treap.
    pub fn new() -> (treap: Self)
        ensures
            treap.wf(),
            treap@ == Seq::<(K, V, Priority)>::empty(),
    {
        Self { tree: CartesianTree::new() }
    }

    /// The value stored under `key`, if any.
    pub fn get(&self, key: &K) -> (r: Option<&V>)
        requires
            self.wf(),
            total_order::<K>(),
        ensures
            match r {
                Some(v) => lookup(self@, *key) is Some && lookup(self@, *key).unwrap().0 == *v,
                None => lookup(self@, *key) is None,
            },
    {
        match self.tree.get(key) {
            Some((v, _)) => Some(v),
            None => None,
        }
    }

    /// The key and value at position `k` in key order.
    pub fn get_index(&self, k: usize) -> (r: Option<(&K, &V)>)
        requires
            self.wf(),
        ensures
            match r {
                Some((key, v)) => entry_at(self@, k as nat) is Some && entry_at(self@, k as nat).unwrap().0
                    == *key && entry_at(self@, k as nat).unwrap().1 == *v,
                None => entry_at(self@, k as nat) is None,
            },
    {
        match self.tree.get_index(k) {
            Some((key, value, _)) => Some((key, value)),
            None => None,
        }
    }

    /// Puts `value` under `key`, with a priority drawn at random for a key
    /// that is new.
    pub fn insert(&mut self, key: K, value: V)
        requires
            old(self).wf(),
            total_order::<K>(),
        ensures
            final(self).wf(),
            exists|priority: Priority| final(self)@ == with_entry(old(self)@, key, value, priority),
    {
        let priority = random_priority();
        self.tree.insert(key, value, priority);
        assert(self@ == with_entry(old(self)@, key, value, priority));
    }

    /// Removes `key` and gives the value that was stored under it, if any.
    pub fn remove(&mut self, key: &K) -> (r: Option<V>)
        requires
            old(self).wf(),
            total_order::<K>(),
        ensures
            final(self).wf(),
            final(self)@ == without_key(old(self)@, *key),
            match r {
                Some(v) => lookup(old(self)@, *key) is Some && lookup(old(self)@, *key).unwrap().0 == v,
                None => lookup(old(self)@, *key) is None,
            },
    {
        match self.tree.remove(key) {
            Some((v, _)) => Some(v),
            None => None,
        }
    }
}

impl<K, V> std::ops::Deref for Treap<K, V> {
    type Target = CartesianTree<K, V>;

    fn deref(&self) -> (tree: &CartesianTree<K, V>)
        ensures
            *tree == self.inner(),
    {
        &self.tree
    }
}

impl<K, V> std::ops::DerefMut for Treap<K, V> {
    fn deref_mut(&mut self) -> (tree: &mut CartesianTree<K, V>)
        ensures
            *tree == old(self).inner(),
            final(self).inner() == *final(tree),
    {
        &mut self.tree
    }
}

} // verus!
