//! The mathematical model of a treap: a binary tree whose nodes carry a key,
//! a value, a priority and the size of their subtree.
//!
//! The executable trees keep their nodes in a slot store; what they do is
//! stated, node for node, by the functions of this module.

use crate::misc::key_order::key_lt;
use vstd::prelude::*;

verus! {

/// A binary tree of entries, each with a priority and a count.
pub enum Tree<K, V> {
    Empty,
    Node { left: Box<Tree<K, V>>, key: K, value: V, priority: u64, count: nat, right: Box<Tree<K, V>> },
}

impl<K, V> Tree<K, V> {
    /// The number of nodes.
    pub open spec fn size(self) -> nat
        decreases self,
    {
        match self {
            Tree::Empty => 0,
            Tree::Node { left, right, .. } => 1 + left.size() + right.size(),
        }
    }

    /// The count kept at the root; 0 for the empty tree.
    pub open spec fn cnt(self) -> nat {
        match self {
            Tree::Empty => 0,
            Tree::Node { count, .. } => count,
        }
    }

    /// The entries from left to right, each as key, value and priority.
    pub open spec fn in_order(self) -> Seq<(K, V, u64)>
        decreases self,
    {
        match self {
            Tree::Empty => Seq::empty(),
            Tree::Node { left, key, value, priority, right, .. } => left.in_order() + seq![
                (key, value, priority),
            ] + right.in_order(),
        }
    }

    /// The values from left to right.
    pub open spec fn values(self) -> Seq<V>
        decreases self,
    {
        match self {
            Tree::Empty => Seq::empty(),
            Tree::Node { left, value, right, .. } => left.values() + seq![value] + right.values(),
        }
    }

    /// The root's priority is at most `bound`; holds of the empty tree.
    pub open spec fn top_le(self, bound: u64) -> bool {
        match self {
            Tree::Empty => true,
            Tree::Node { priority, .. } => priority <= bound,
        }
    }

    /// Every node's count is one more than the counts of its children.
    pub open spec fn counts_consistent(self) -> bool
        decreases self,
    {
        match self {
            Tree::Empty => true,
            Tree::Node { left, count, right, .. } => {
                &&& count == 1 + left.cnt() + right.cnt()
                &&& left.counts_consistent()
                &&& right.counts_consistent()
            },
        }
    }

    /// No child has a higher priority than its parent.
    pub open spec fn heap_ordered(self) -> bool
        decreases self,
    {
        match self {
            Tree::Empty => true,
            Tree::Node { left, priority, right, .. } => {
                &&& left.top_le(priority)
                &&& right.top_le(priority)
                &&& left.heap_ordered()
                &&& right.heap_ordered()
            },
        }
    }

    /// The node with the given parts and the count that its children give it.
    pub open spec fn mk(left: Self, key: K, value: V, priority: u64, right: Self) -> Self {
        Tree::Node {
            left: Box::new(left),
            key,
            value,
            priority,
            count: 1 + left.cnt() + right.cnt(),
            right: Box::new(right),
        }
    }

    /// The tree after a right rotation: the left child is on top and the old
    /// root, with its count made new, is its right child. The count of the
    /// new root is as it was. A tree without a left child is left alone.
    pub open spec fn rotated_right(self) -> Self {
        match self {
            Tree::Node { left, key, value, priority, right, .. } => match *left {
                Tree::Node { left: ll, key: lk, value: lv, priority: lp, count: lc, right: lr } => Tree::Node {
                    left: ll,
                    key: lk,
                    value: lv,
                    priority: lp,
                    count: lc,
                    right: Box::new(Self::mk(*lr, key, value, priority, *right)),
                },
                Tree::Empty => self,
            },
            Tree::Empty => self,
        }
    }

    /// The tree after a left rotation, the mirror image of a right rotation.
    pub open spec fn rotated_left(self) -> Self {
        match self {
            Tree::Node { left, key, value, priority, right, .. } => match *right {
                Tree::Node { left: rl, key: rk, value: rv, priority: rp, count: rc, right: rr } => Tree::Node {
                    left: Box::new(Self::mk(*left, key, value, priority, *rl)),
                    key: rk,
                    value: rv,
                    priority: rp,
                    count: rc,
                    right: rr,
                },
                Tree::Empty => self,
            },
            Tree::Empty => self,
        }
    }

    /// The entry of rank `k`, found by the counts.
    pub open spec fn select(self, k: nat) -> Option<(K, V, u64)>
        decreases self,
    {
        match self {
            Tree::Empty => None,
            Tree::Node { left, key, value, priority, right, .. } => if k == left.cnt() {
                Some((key, value, priority))
            } else if k < left.cnt() {
                left.select(k)
            } else {
                right.select((k - left.cnt() - 1) as nat)
            },
        }
    }

    /// Two trees as one, every entry of `l` before every entry of `r`: the
    /// root of higher priority stays on top, that of `r` only if it is
    /// strictly higher, and the other tree is joined into the subtree below it.
    pub open spec fn join(l: Self, r: Self) -> Self
        decreases l, r,
    {
        match (l, r) {
            (Tree::Empty, _) => r,
            (_, Tree::Empty) => l,
            (
                Tree::Node { left: ll, key: lk, value: lv, priority: lp, right: lr, .. },
                Tree::Node { left: rl, key: rk, value: rv, priority: rp, right: rr, .. },
            ) => if lp < rp {
                Self::mk(Self::join(l, *rl), rk, rv, rp, *rr)
            } else {
                Self::mk(*ll, lk, lv, lp, Self::join(*lr, r))
            },
        }
    }

    /// Two trees as one sequence, the values of `l` before those of `r`:
    /// the root of `l` stays on top only if its priority is strictly the
    /// higher, and the other tree is merged into the subtree below the top.
    pub open spec fn merge(l: Self, r: Self) -> Self
        decreases l, r,
    {
        match (l, r) {
            (Tree::Empty, _) => r,
            (_, Tree::Empty) => l,
            (
                Tree::Node { left: ll, key: lk, value: lv, priority: lp, right: lr, .. },
                Tree::Node { left: rl, key: rk, value: rv, priority: rp, right: rr, .. },
            ) => if lp > rp {
                Self::mk(*ll, lk, lv, lp, Self::merge(*lr, r))
            } else {
                Self::mk(Self::merge(l, *rl), rk, rv, rp, *rr)
            },
        }
    }

    /// The tree in two: with `add` positions taken to lie before the tree,
    /// the nodes at positions up to `pos` go to the first part and the rest
    /// to the second.
    pub open spec fn split(self, pos: nat, add: nat) -> (Self, Self)
        decreases self,
    {
        match self {
            Tree::Empty => (Tree::Empty, Tree::Empty),
            Tree::Node { left, key, value, priority, right, .. } => {
                let current = left.cnt() + add;
                if current <= pos {
                    let parts = right.split(pos, current + 1);
                    (Self::mk(*left, key, value, priority, parts.0), parts.1)
                } else {
                    let parts = left.split(pos, add);
                    (parts.0, Self::mk(parts.1, key, value, priority, *right))
                }
            },
        }
    }

    /// The tree with `value` put in at position `pos`, in a node of the
    /// given priority: the tree is split before that position, and the
    /// first part, the new node and the second part are merged.
    pub open spec fn with_value_at(self, pos: nat, key: K, value: V, priority: u64) -> Self {
        let parts = if pos == 0 {
            (Tree::Empty, self)
        } else {
            self.split((pos - 1) as nat, 0)
        };
        let single = Self::mk(Tree::Empty, key, value, priority, Tree::Empty);
        Self::merge(Self::merge(parts.0, single), parts.1)
    }

    /// The tree without the node at position `pos`: the tree is split
    /// before that position, the first node is split off the second part,
    /// and what is left of both parts is merged.
    pub open spec fn without_value_at(self, pos: nat) -> Self {
        let parts = if pos == 0 {
            (Tree::Empty, self)
        } else {
            self.split((pos - 1) as nat, 0)
        };
        Self::merge(parts.0, parts.1.split(0, 0).1)
    }

    /// A heap by priority with true counts.
    pub open spec fn is_heap(self) -> bool {
        self.heap_ordered() && self.counts_consistent()
    }

    /// The tree without its root. The child of higher priority is rotated
    /// up until the root has at most one child and is spliced out, which
    /// joins the two subtrees.
    pub open spec fn remove_root(self) -> Self {
        match self {
            Tree::Empty => Tree::Empty,
            Tree::Node { left, right, .. } => Self::join(*left, *right),
        }
    }

    /// The tree without the entry of rank `k`; unchanged if there is none.
    pub open spec fn remove_at(self, k: nat) -> Self
        decreases self,
    {
        match self {
            Tree::Empty => Tree::Empty,
            Tree::Node { left, key, value, priority, right, .. } => if k < left.cnt() {
                Self::mk(left.remove_at(k), key, value, priority, *right)
            } else if k > left.cnt() {
                Self::mk(*left, key, value, priority, right.remove_at((k - left.cnt() - 1) as nat))
            } else {
                self.remove_root()
            },
        }
    }
}

impl<K: Ord, V> Tree<K, V> {
    /// Every key in the left subtree is before the node's key and every key
    /// in the right subtree after it, for every node.
    pub open spec fn search_ordered(self) -> bool
        decreases self,
    {
        match self {
            Tree::Empty => true,
            Tree::Node { left, key, right, .. } => {
                &&& left.search_ordered()
                &&& right.search_ordered()
                &&& forall|i: int|
                    0 <= i < left.in_order().len() ==> key_lt((#[trigger] left.in_order()[i]).0, key)
                &&& forall|i: int|
                    0 <= i < right.in_order().len() ==> key_lt(
                        key,
                        (#[trigger] right.in_order()[i]).0,
                    )
            },
        }
    }

    /// Every node's key is after `lo` and before `hi`, where they are
    /// given, after the keys of its ancestors to the left and before those
    /// of its ancestors to the right.
    pub open spec fn between(self, lo: Option<K>, hi: Option<K>) -> bool
        decreases self,
    {
        match self {
            Tree::Empty => true,
            Tree::Node { left, key, right, .. } => {
                &&& lo matches Some(l) ==> key_lt(l, key)
                &&& hi matches Some(h) ==> key_lt(key, h)
                &&& left.between(lo, Some(key))
                &&& right.between(Some(key), hi)
            },
        }
    }

    /// A treap: a search tree by key, a heap by priority, with true counts.
    pub open spec fn is_treap(self) -> bool {
        &&& self.search_ordered()
        &&& self.heap_ordered()
        &&& self.counts_consistent()
    }

    /// The value and priority stored under `key`, found by descent.
    pub open spec fn find(self, key: K) -> Option<(V, u64)>
        decreases self,
    {
        match self {
            Tree::Empty => None,
            Tree::Node { left, key: k, value, priority, right, .. } => if key == k {
                Some((value, priority))
            } else if key_lt(key, k) {
                left.find(key)
            } else {
                right.find(key)
            },
        }
    }

    /// The rank of `key`, found by descent.
    pub open spec fn rank(self, key: K) -> Option<nat>
        decreases self,
    {
        match self {
            Tree::Empty => None,
            Tree::Node { left, key: k, right, .. } => if key == k {
                Some(left.cnt())
            } else if key_lt(key, k) {
                left.rank(key)
            } else {
                match right.rank(key) {
                    Some(i) => Some(i + 1 + left.cnt()),
                    None => None,
                }
            },
        }
    }

    /// The tree with `value` under `key`. A key that is present keeps its
    /// node and its priority. A new key becomes a leaf with `priority` and
    /// is rotated up while it is above its parent in priority.
    pub open spec fn insert(self, key: K, value: V, priority: u64) -> Self
        decreases self,
    {
        match self {
            Tree::Empty => Self::mk(Tree::Empty, key, value, priority, Tree::Empty),
            Tree::Node { left, key: k, value: v, priority: p, count, right } => if key == k {
                Tree::Node { left, key: k, value, priority: p, count, right }
            } else if key_lt(key, k) {
                match left.insert(key, value, priority) {
                    Tree::Node { left: ll, key: lk, value: lv, priority: lp, right: lr, .. } => if lp
                        > p {
                        Self::mk(*ll, lk, lv, lp, Self::mk(*lr, k, v, p, *right))
                    } else {
                        Self::mk(left.insert(key, value, priority), k, v, p, *right)
                    },
                    Tree::Empty => self,
                }
            } else {
                match right.insert(key, value, priority) {
                    Tree::Node { left: rl, key: rk, value: rv, priority: rp, right: rr, .. } => if rp
                        > p {
                        Self::mk(Self::mk(*left, k, v, p, *rl), rk, rv, rp, *rr)
                    } else {
                        Self::mk(*left, k, v, p, right.insert(key, value, priority))
                    },
                    Tree::Empty => self,
                }
            },
        }
    }

    /// The tree without `key`; unchanged if the key is absent.
    pub open spec fn remove(self, key: K) -> Self
        decreases self,
    {
        match self {
            Tree::Empty => Tree::Empty,
            Tree::Node { left, key: k, value, priority, right, .. } => if key == k {
                self.remove_root()
            } else if key_lt(key, k) {
                Self::mk(left.remove(key), k, value, priority, *right)
            } else {
                Self::mk(*left, k, value, priority, right.remove(key))
            },
        }
    }
}

} // verus!
