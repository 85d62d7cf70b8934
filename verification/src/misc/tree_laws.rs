//! What the operations on a treap do to its entries, and that they keep a
//! treap a treap.

use crate::misc::entries::{
    count_below, entry_at, has_key, keys_increasing, lemma_count_below_le,
    lemma_has_key_parts, lemma_parts, lemma_remove_increasing, lemma_whole,
    lemma_with_entry_increasing, lookup, position, rank_of, with_entry, without_key,
    without_position,
};
use crate::misc::key_order::{
    key_lt, lemma_lt_asymmetric, lemma_lt_total, lemma_lt_transitive, total_order,
};
use crate::misc::tree_model::Tree;
use vstd::prelude::*;

verus! {

/// A tree has as many entries as nodes.
pub proof fn lemma_in_order_len<K, V>(t: Tree<K, V>)
    ensures
        t.in_order().len() == t.size(),
    decreases t,
{
    match t {
        Tree::Empty => {},
        Tree::Node { left, right, .. } => {
            lemma_in_order_len(*left);
            lemma_in_order_len(*right);
        },
    }
}

/// With consistent counts, the root's count is the number of entries.
pub proof fn lemma_count_is_len<K, V>(t: Tree<K, V>)
    requires
        t.counts_consistent(),
    ensures
        t.cnt() == t.in_order().len(),
    decreases t,
{
    match t {
        Tree::Empty => {},
        Tree::Node { left, right, .. } => {
            lemma_count_is_len(*left);
            lemma_count_is_len(*right);
        },
    }
}

/// A tree is a search tree exactly if its entries are in increasing key
/// order from left to right.
pub proof fn lemma_ordered_iff_increasing<K: Ord, V>(t: Tree<K, V>)
    requires
        total_order::<K>(),
    ensures
        t.search_ordered() <==> keys_increasing(t.in_order()),
    decreases t,
{
    match t {
        Tree::Empty => {},
        Tree::Node { left, key, value, priority, right, .. } => {
            lemma_ordered_iff_increasing(*left);
            lemma_ordered_iff_increasing(*right);
            let e = (key, value, priority);
            if t.search_ordered() {
                lemma_whole(left.in_order(), e, right.in_order());
            }
            if keys_increasing(t.in_order()) {
                lemma_parts(left.in_order(), e, right.in_order());
            }
        },
    }
}

/// Descending by key finds what the entries hold under the key.
pub proof fn lemma_find<K: Ord, V>(t: Tree<K, V>, key: K)
    requires
        total_order::<K>(),
        t.search_ordered(),
    ensures
        t.find(key) == lookup(t.in_order(), key),
    decreases t,
{
    match t {
        Tree::Empty => {},
        Tree::Node { left, key: k, value, priority, right, .. } => {
            let l = left.in_order();
            let r = right.in_order();
            let e = (k, value, priority);
            let s = l + seq![e] + r;
            lemma_ordered_iff_increasing(t);
            lemma_has_key_parts(l, e, r, key);
            lemma_find(*left, key);
            lemma_find(*right, key);
            lemma_lt_total(key, k);
            if key == k {
                assert(s[l.len() as int] == e);
            } else if key_lt(key, k) {
                if has_key(l, key) {
                    assert(s[rank_of(l, key)] == l[rank_of(l, key)]);
                }
            } else {
                if has_key(r, key) {
                    assert(s[l.len() + 1 + rank_of(r, key)] == r[rank_of(r, key)]);
                }
            }
        },
    }
}

/// Descending by key and adding up the counts passed on the left gives the
/// key's position among the entries.
pub proof fn lemma_rank<K: Ord, V>(t: Tree<K, V>, key: K)
    requires
        total_order::<K>(),
        t.search_ordered(),
        t.counts_consistent(),
    ensures
        t.rank(key) == position(t.in_order(), key),
    decreases t,
{
    match t {
        Tree::Empty => {},
        Tree::Node { left, key: k, value, priority, right, .. } => {
            let l = left.in_order();
            let r = right.in_order();
            let e = (k, value, priority);
            lemma_ordered_iff_increasing(t);
            lemma_has_key_parts(l, e, r, key);
            lemma_rank(*left, key);
            lemma_rank(*right, key);
            lemma_lt_total(key, k);
            lemma_count_is_len(*left);
            if key_lt(key, k) {
                lemma_lt_asymmetric(key, k);
            }
        },
    }
}

/// Descending by the counts finds the entry at a position.
pub proof fn lemma_select<K, V>(t: Tree<K, V>, k: nat)
    requires
        t.counts_consistent(),
    ensures
        t.select(k) == entry_at(t.in_order(), k),
    decreases t,
{
    match t {
        Tree::Empty => {},
        Tree::Node { left, key, value, priority, right, .. } => {
            let l = left.in_order();
            let r = right.in_order();
            let e = (key, value, priority);
            let s = l + seq![e] + r;
            lemma_count_is_len(*left);
            lemma_count_is_len(*right);
            lemma_select(*left, k);
            lemma_select(*right, (k - left.cnt() - 1) as nat);
            if k < l.len() {
                assert(s[k as int] == l[k as int]);
            } else if k == l.len() {
                assert(s[k as int] == e);
            } else if k < s.len() {
                assert(s[k as int] == r[k - l.len() - 1]);
            }
        },
    }
}

/// Inserting leaves a tree with a root.
pub proof fn lemma_insert_is_node<K: Ord, V>(t: Tree<K, V>, key: K, value: V, priority: u64)
    ensures
        t.insert(key, value, priority) is Node,
    decreases t,
{
    match t {
        Tree::Empty => {},
        Tree::Node { left, right, .. } => {
            lemma_insert_is_node(*left, key, value, priority);
            lemma_insert_is_node(*right, key, value, priority);
        },
    }
}

/// Whether or not the grown child is rotated above the root, the entries
/// of the tree are those of the grown child, the root and the other child.
pub proof fn lemma_insert_step<K: Ord, V>(t: Tree<K, V>, key: K, value: V, priority: u64)
    requires
        t is Node,
        key != t->key,
    ensures
        key_lt(key, t->key) ==> t.insert(key, value, priority).in_order() == t->left.insert(
            key,
            value,
            priority,
        ).in_order() + seq![(t->key, t->value, t->priority)] + t->right.in_order(),
        !key_lt(key, t->key) ==> t.insert(key, value, priority).in_order() == t->left.in_order()
            + seq![(t->key, t->value, t->priority)] + t->right.insert(key, value, priority).in_order(),
{
    let after = t.insert(key, value, priority);
    let e = (t->key, t->value, t->priority);
    if key_lt(key, t->key) {
        let grown = t->left.insert(key, value, priority);
        lemma_insert_is_node(*t->left, key, value, priority);
        let ge = (grown->key, grown->value, grown->priority);
        assert(grown.in_order() == grown->left.in_order() + seq![ge] + grown->right.in_order());
        if grown->priority > t->priority {
            let demoted = Tree::mk(*grown->right, t->key, t->value, t->priority, *t->right);
            assert(after == Tree::mk(*grown->left, grown->key, grown->value, grown->priority, demoted));
            assert(demoted.in_order() == grown->right.in_order() + seq![e] + t->right.in_order());
            assert(after.in_order() == grown->left.in_order() + seq![ge] + demoted.in_order());
            assert(after.in_order() =~= grown.in_order() + seq![e] + t->right.in_order());
        } else {
            assert(after == Tree::mk(grown, t->key, t->value, t->priority, *t->right));
            assert(after.in_order() =~= grown.in_order() + seq![e] + t->right.in_order());
        }
    } else {
        let grown = t->right.insert(key, value, priority);
        lemma_insert_is_node(*t->right, key, value, priority);
        let ge = (grown->key, grown->value, grown->priority);
        assert(grown.in_order() == grown->left.in_order() + seq![ge] + grown->right.in_order());
        if grown->priority > t->priority {
            let demoted = Tree::mk(*t->left, t->key, t->value, t->priority, *grown->left);
            assert(after == Tree::mk(demoted, grown->key, grown->value, grown->priority, *grown->right));
            assert(demoted.in_order() == t->left.in_order() + seq![e] + grown->left.in_order());
            assert(after.in_order() == demoted.in_order() + seq![ge] + grown->right.in_order());
            assert(after.in_order() =~= t->left.in_order() + seq![e] + grown.in_order());
        } else {
            assert(after == Tree::mk(*t->left, t->key, t->value, t->priority, grown));
            assert(after.in_order() =~= t->left.in_order() + seq![e] + grown.in_order());
        }
    }
}

/// Inserting into a search tree puts the entry where the key belongs, or
/// replaces the value where the key is.
pub proof fn lemma_insert_in_order<K: Ord, V>(t: Tree<K, V>, key: K, value: V, priority: u64)
    requires
        total_order::<K>(),
        t.search_ordered(),
    ensures
        t.insert(key, value, priority).in_order() == with_entry(t.in_order(), key, value, priority),
    decreases t,
{
    match t {
        Tree::Empty => {
            assert(t.insert(key, value, priority).in_order() =~= seq![(key, value, priority)]);
            assert(with_entry(t.in_order(), key, value, priority) =~= seq![(key, value, priority)]);
        },
        Tree::Node { left, key: k, value: v, priority: p, right, .. } => {
            let l = left.in_order();
            let r = right.in_order();
            let e = (k, v, p);
            let s = l + seq![e] + r;
            let after = t.insert(key, value, priority);
            lemma_ordered_iff_increasing(t);
            lemma_has_key_parts(l, e, r, key);
            lemma_lt_total(key, k);
            if key == k {
                assert(s[l.len() as int] == e);
                assert(after.in_order() =~= s.update(l.len() as int, (key, value, p)));
            } else if key_lt(key, k) {
                lemma_lt_asymmetric(key, k);
                lemma_insert_in_order(*left, key, value, priority);
                lemma_insert_step(t, key, value, priority);
                let grown = left.insert(key, value, priority);
                let m = grown.in_order();
                assert(after.in_order() == m + seq![e] + r);
                if has_key(l, key) {
                    let i = rank_of(l, key);
                    assert(s[i] == l[i]);
                    assert(m + seq![e] + r =~= s.update(i, (key, value, s[i].2)));
                } else {
                    lemma_count_below_le(l, key);
                    let c = count_below(l, key) as int;
                    assert(m + seq![e] + r =~= s.insert(c, (key, value, priority)));
                }
            } else {
                lemma_lt_asymmetric(k, key);
                lemma_insert_in_order(*right, key, value, priority);
                lemma_insert_step(t, key, value, priority);
                let grown = right.insert(key, value, priority);
                let m = grown.in_order();
                assert(after.in_order() == l + seq![e] + m);
                if has_key(r, key) {
                    let i = rank_of(r, key);
                    assert(s[l.len() + 1 + i] == r[i]);
                    assert(l + seq![e] + m =~= s.update(l.len() + 1 + i, (key, value, r[i].2)));
                } else {
                    lemma_count_below_le(r, key);
                    let c = count_below(r, key) as int;
                    assert(l + seq![e] + m =~= s.insert(l.len() + 1 + c, (key, value, priority)));
                }
            }
        },
    }
}

/// Inserting keeps the counts consistent.
pub proof fn lemma_insert_counts<K: Ord, V>(t: Tree<K, V>, key: K, value: V, priority: u64)
    requires
        t.counts_consistent(),
    ensures
        t.insert(key, value, priority).counts_consistent(),
    decreases t,
{
    match t {
        Tree::Empty => {
            assert(Tree::<K, V>::Empty.counts_consistent());
        },
        Tree::Node { left, key: k, value: v, priority: p, right, .. } => {
            lemma_insert_counts(*left, key, value, priority);
            lemma_insert_counts(*right, key, value, priority);
            lemma_insert_is_node(*left, key, value, priority);
            lemma_insert_is_node(*right, key, value, priority);
            if key == k {
            } else if key_lt(key, k) {
                let grown = left.insert(key, value, priority);
                assert(grown->left.counts_consistent() && grown->right.counts_consistent());
                assert(Tree::mk(*grown->right, k, v, p, *right).counts_consistent());
            } else {
                let grown = right.insert(key, value, priority);
                assert(grown->left.counts_consistent() && grown->right.counts_consistent());
                assert(Tree::mk(*left, k, v, p, *grown->left).counts_consistent());
            }
        },
    }
}

/// Inserting keeps the heap order. Above `bound`, which bounded the tree,
/// only the new entry can stand, and then it is the root.
pub proof fn lemma_insert_heap<K: Ord, V>(
    t: Tree<K, V>,
    key: K,
    value: V,
    priority: u64,
    bound: u64,
)
    requires
        t.heap_ordered(),
        t.top_le(bound),
    ensures
        t.insert(key, value, priority).heap_ordered(),
        t.insert(key, value, priority).top_le(bound) || (t.insert(key, value, priority)->key == key
            && t.insert(key, value, priority)->left.top_le(bound) && t.insert(
            key,
            value,
            priority,
        )->right.top_le(bound)),
    decreases t,
{
    match t {
        Tree::Empty => {},
        Tree::Node { left, key: k, value: v, priority: p, right, .. } => {
            lemma_insert_is_node(t, key, value, priority);
            if key == k {
            } else if key_lt(key, k) {
                lemma_insert_heap(*left, key, value, priority, p);
                lemma_insert_is_node(*left, key, value, priority);
                let grown = left.insert(key, value, priority);
                if grown->priority > p {
                    let demoted = Tree::mk(*grown->right, k, v, p, *right);
                    assert(demoted.heap_ordered());
                    assert(t.insert(key, value, priority) == Tree::mk(
                        *grown->left,
                        grown->key,
                        grown->value,
                        grown->priority,
                        demoted,
                    ));
                }
            } else {
                lemma_insert_heap(*right, key, value, priority, p);
                lemma_insert_is_node(*right, key, value, priority);
                let grown = right.insert(key, value, priority);
                if grown->priority > p {
                    let demoted = Tree::mk(*left, k, v, p, *grown->left);
                    assert(demoted.heap_ordered());
                    assert(t.insert(key, value, priority) == Tree::mk(
                        demoted,
                        grown->key,
                        grown->value,
                        grown->priority,
                        *grown->right,
                    ));
                }
            }
        },
    }
}

/// Joined trees hold the entries of the first followed by those of the
/// second.
pub proof fn lemma_join_in_order<K, V>(l: Tree<K, V>, r: Tree<K, V>)
    ensures
        Tree::join(l, r).in_order() == l.in_order() + r.in_order(),
    decreases l, r,
{
    match (l, r) {
        (Tree::Empty, _) => {
            assert(l.in_order() + r.in_order() =~= r.in_order());
        },
        (_, Tree::Empty) => {
            assert(l.in_order() + r.in_order() =~= l.in_order());
        },
        (
            Tree::Node { left: ll, key: lk, value: lv, priority: lp, right: lr, .. },
            Tree::Node { left: rl, key: rk, value: rv, priority: rp, right: rr, .. },
        ) => {
            if lp < rp {
                lemma_join_in_order(l, *rl);
                assert(Tree::join(l, r).in_order() =~= l.in_order() + r.in_order());
            } else {
                lemma_join_in_order(*lr, r);
                assert(Tree::join(l, r).in_order() =~= l.in_order() + r.in_order());
            }
        },
    }
}

/// Joined heaps are a heap, bounded by what bounds both.
pub proof fn lemma_join_heap<K, V>(l: Tree<K, V>, r: Tree<K, V>, bound: u64)
    requires
        l.heap_ordered(),
        r.heap_ordered(),
        l.top_le(bound),
        r.top_le(bound),
    ensures
        Tree::join(l, r).heap_ordered(),
        Tree::join(l, r).top_le(bound),
    decreases l, r,
{
    match (l, r) {
        (Tree::Empty, _) => {},
        (_, Tree::Empty) => {},
        (
            Tree::Node { left: ll, key: lk, value: lv, priority: lp, right: lr, .. },
            Tree::Node { left: rl, key: rk, value: rv, priority: rp, right: rr, .. },
        ) => {
            if lp < rp {
                lemma_join_heap(l, *rl, rp);
            } else {
                lemma_join_heap(*lr, r, lp);
            }
        },
    }
}

/// Joined trees with consistent counts have consistent counts, and as
/// the root's count the sum of the two.
pub proof fn lemma_join_counts<K, V>(l: Tree<K, V>, r: Tree<K, V>)
    requires
        l.counts_consistent(),
        r.counts_consistent(),
    ensures
        Tree::join(l, r).counts_consistent(),
        Tree::join(l, r).cnt() == l.cnt() + r.cnt(),
    decreases l, r,
{
    match (l, r) {
        (Tree::Empty, _) => {},
        (_, Tree::Empty) => {},
        (
            Tree::Node { left: ll, key: lk, value: lv, priority: lp, right: lr, .. },
            Tree::Node { left: rl, key: rk, value: rv, priority: rp, right: rr, .. },
        ) => {
            if lp < rp {
                lemma_join_counts(l, *rl);
            } else {
                lemma_join_counts(*lr, r);
            }
        },
    }
}

/// Removing a key from a search tree takes its entry out of the entries.
pub proof fn lemma_remove_in_order<K: Ord, V>(t: Tree<K, V>, key: K)
    requires
        total_order::<K>(),
        t.search_ordered(),
    ensures
        t.remove(key).in_order() == without_key(t.in_order(), key),
    decreases t,
{
    match t {
        Tree::Empty => {},
        Tree::Node { left, key: k, value: v, priority: p, right, .. } => {
            let l = left.in_order();
            let r = right.in_order();
            let e = (k, v, p);
            let s = l + seq![e] + r;
            lemma_ordered_iff_increasing(t);
            lemma_has_key_parts(l, e, r, key);
            lemma_lt_total(key, k);
            if key == k {
                lemma_join_in_order(*left, *right);
                assert(l + r =~= s.remove(l.len() as int));
            } else if key_lt(key, k) {
                lemma_lt_asymmetric(key, k);
                lemma_remove_in_order(*left, key);
                let m = left.remove(key).in_order();
                assert(t.remove(key).in_order() == m + seq![e] + r);
                if has_key(l, key) {
                    assert(m + seq![e] + r =~= s.remove(rank_of(l, key)));
                }
            } else {
                lemma_lt_asymmetric(k, key);
                lemma_remove_in_order(*right, key);
                let m = right.remove(key).in_order();
                assert(t.remove(key).in_order() == l + seq![e] + m);
                if has_key(r, key) {
                    assert(l + seq![e] + m =~= s.remove(l.len() + 1 + rank_of(r, key)));
                }
            }
        },
    }
}

/// Removing a key keeps the heap order and every bound on the root.
pub proof fn lemma_remove_heap<K: Ord, V>(t: Tree<K, V>, key: K, bound: u64)
    requires
        t.heap_ordered(),
        t.top_le(bound),
    ensures
        t.remove(key).heap_ordered(),
        t.remove(key).top_le(bound),
    decreases t,
{
    match t {
        Tree::Empty => {},
        Tree::Node { left, key: k, priority: p, right, .. } => {
            if key == k {
                lemma_join_heap(*left, *right, p);
            } else if key_lt(key, k) {
                lemma_remove_heap(*left, key, p);
            } else {
                lemma_remove_heap(*right, key, p);
            }
        },
    }
}

/// Removing a key keeps the counts consistent.
pub proof fn lemma_remove_counts<K: Ord, V>(t: Tree<K, V>, key: K)
    requires
        t.counts_consistent(),
    ensures
        t.remove(key).counts_consistent(),
    decreases t,
{
    match t {
        Tree::Empty => {},
        Tree::Node { left, key: k, right, .. } => {
            if key == k {
                lemma_join_counts(*left, *right);
            } else if key_lt(key, k) {
                lemma_remove_counts(*left, key);
            } else {
                lemma_remove_counts(*right, key);
            }
        },
    }
}

/// Removing by position takes the entry at that position out.
pub proof fn lemma_remove_at_in_order<K, V>(t: Tree<K, V>, k: nat)
    requires
        t.counts_consistent(),
    ensures
        t.remove_at(k).in_order() == without_position(t.in_order(), k),
        t.remove_at(k).counts_consistent(),
    decreases t,
{
    match t {
        Tree::Empty => {},
        Tree::Node { left, key, value, priority, right, .. } => {
            let l = left.in_order();
            let r = right.in_order();
            let e = (key, value, priority);
            let s = l + seq![e] + r;
            lemma_count_is_len(*left);
            lemma_count_is_len(*right);
            if k < left.cnt() {
                lemma_remove_at_in_order(*left, k);
                let m = left.remove_at(k).in_order();
                assert(t.remove_at(k).in_order() == m + seq![e] + r);
                assert(m + seq![e] + r =~= s.remove(k as int));
            } else if k > left.cnt() {
                let j = (k - left.cnt() - 1) as nat;
                lemma_remove_at_in_order(*right, j);
                let m = right.remove_at(j).in_order();
                assert(t.remove_at(k).in_order() == l + seq![e] + m);
                if j < r.len() {
                    assert(l + seq![e] + m =~= s.remove(k as int));
                }
            } else {
                lemma_join_in_order(*left, *right);
                lemma_join_counts(*left, *right);
                assert(l + r =~= s.remove(k as int));
            }
        },
    }
}

/// Removing by position keeps the heap order and every bound on the root.
pub proof fn lemma_remove_at_heap<K, V>(t: Tree<K, V>, k: nat, bound: u64)
    requires
        t.heap_ordered(),
        t.top_le(bound),
    ensures
        t.remove_at(k).heap_ordered(),
        t.remove_at(k).top_le(bound),
    decreases t,
{
    match t {
        Tree::Empty => {},
        Tree::Node { left, priority: p, right, .. } => {
            if k < left.cnt() {
                lemma_remove_at_heap(*left, k, p);
            } else if k > left.cnt() {
                lemma_remove_at_heap(*right, (k - left.cnt() - 1) as nat, p);
            } else {
                lemma_join_heap(*left, *right, p);
            }
        },
    }
}

/// A treap with a new entry is a treap.
pub proof fn lemma_insert_keeps_treap<K: Ord, V>(t: Tree<K, V>, key: K, value: V, priority: u64)
    requires
        total_order::<K>(),
        t.is_treap(),
    ensures
        t.insert(key, value, priority).is_treap(),
        t.insert(key, value, priority).in_order() == with_entry(t.in_order(), key, value, priority),
{
    let after = t.insert(key, value, priority);
    lemma_insert_in_order(t, key, value, priority);
    lemma_ordered_iff_increasing(t);
    lemma_with_entry_increasing(t.in_order(), key, value, priority);
    lemma_ordered_iff_increasing(after);
    lemma_insert_counts(t, key, value, priority);
    lemma_insert_heap(t, key, value, priority, u64::MAX);
}

/// A treap without one of its keys is a treap.
pub proof fn lemma_remove_keeps_treap<K: Ord, V>(t: Tree<K, V>, key: K)
    requires
        total_order::<K>(),
        t.is_treap(),
    ensures
        t.remove(key).is_treap(),
        t.remove(key).in_order() == without_key(t.in_order(), key),
{
    let after = t.remove(key);
    lemma_remove_in_order(t, key);
    lemma_ordered_iff_increasing(t);
    if has_key(t.in_order(), key) {
        lemma_remove_increasing(t.in_order(), rank_of(t.in_order(), key));
    }
    lemma_ordered_iff_increasing(after);
    lemma_remove_counts(t, key);
    lemma_remove_heap(t, key, u64::MAX);
}

/// A treap without the entry at a position is a treap.
pub proof fn lemma_remove_at_keeps_treap<K: Ord, V>(t: Tree<K, V>, k: nat)
    requires
        total_order::<K>(),
        t.is_treap(),
    ensures
        t.remove_at(k).is_treap(),
        t.remove_at(k).in_order() == without_position(t.in_order(), k),
{
    let after = t.remove_at(k);
    lemma_remove_at_in_order(t, k);
    lemma_ordered_iff_increasing(t);
    if k < t.in_order().len() {
        lemma_remove_increasing(t.in_order(), k as int);
    }
    lemma_ordered_iff_increasing(after);
    lemma_remove_at_heap(t, k, u64::MAX);
}

/// With consistent counts, the root's count is the number of values.
pub proof fn lemma_count_is_values_len<K, V>(t: Tree<K, V>)
    requires
        t.counts_consistent(),
    ensures
        t.cnt() == t.values().len(),
        t.size() == t.values().len(),
    decreases t,
{
    match t {
        Tree::Empty => {},
        Tree::Node { left, right, .. } => {
            lemma_count_is_values_len(*left);
            lemma_count_is_values_len(*right);
        },
    }
}

/// Merged trees hold the values of the first followed by those of the
/// second.
pub proof fn lemma_merge_values<K, V>(l: Tree<K, V>, r: Tree<K, V>)
    ensures
        Tree::merge(l, r).values() == l.values() + r.values(),
    decreases l, r,
{
    match (l, r) {
        (Tree::Empty, _) => {
            assert(l.values() + r.values() =~= r.values());
        },
        (_, Tree::Empty) => {
            assert(l.values() + r.values() =~= l.values());
        },
        (
            Tree::Node { left: ll, priority: lp, right: lr, .. },
            Tree::Node { left: rl, priority: rp, right: rr, .. },
        ) => {
            if lp > rp {
                lemma_merge_values(*lr, r);
                assert(Tree::merge(l, r).values() =~= l.values() + r.values());
            } else {
                lemma_merge_values(l, *rl);
                assert(Tree::merge(l, r).values() =~= l.values() + r.values());
            }
        },
    }
}

/// Merged heaps with true counts are a heap with true counts, bounded by
/// what bounds both.
pub proof fn lemma_merge_heap<K, V>(l: Tree<K, V>, r: Tree<K, V>, bound: u64)
    requires
        l.is_heap(),
        r.is_heap(),
        l.top_le(bound),
        r.top_le(bound),
    ensures
        Tree::merge(l, r).is_heap(),
        Tree::merge(l, r).top_le(bound),
        Tree::merge(l, r).cnt() == l.cnt() + r.cnt(),
    decreases l, r,
{
    match (l, r) {
        (Tree::Empty, _) => {},
        (_, Tree::Empty) => {},
        (
            Tree::Node { left: ll, priority: lp, right: lr, .. },
            Tree::Node { left: rl, priority: rp, right: rr, .. },
        ) => {
            if lp > rp {
                lemma_merge_heap(*lr, r, lp);
            } else {
                lemma_merge_heap(l, *rl, rp);
            }
        },
    }
}

/// How many values a split puts into the first part.
pub open spec fn split_point(len: nat, pos: nat, add: nat) -> nat {
    if pos + 1 <= add {
        0
    } else if pos + 1 - add <= len {
        (pos + 1 - add) as nat
    } else {
        len
    }
}

/// A split cuts the values in two at the split point.
pub proof fn lemma_split_values<K, V>(t: Tree<K, V>, pos: nat, add: nat)
    requires
        t.counts_consistent(),
    ensures
        t.split(pos, add).0.values() == t.values().take(
            split_point(t.values().len(), pos, add) as int,
        ),
        t.split(pos, add).1.values() == t.values().skip(
            split_point(t.values().len(), pos, add) as int,
        ),
    decreases t,
{
    match t {
        Tree::Empty => {
            assert(t.values().take(0) =~= Seq::<V>::empty());
            assert(t.values().skip(0) =~= Seq::<V>::empty());
        },
        Tree::Node { left, value, right, .. } => {
            let l = left.values();
            let r = right.values();
            let s = l + seq![value] + r;
            let k = split_point(s.len(), pos, add) as int;
            lemma_count_is_values_len(*left);
            lemma_count_is_values_len(*right);
            let current = left.cnt() + add;
            if current <= pos {
                lemma_split_values(*right, pos, current + 1);
                let j = split_point(r.len(), pos, current + 1) as int;
                assert(k == l.len() + 1 + j);
                assert(t.split(pos, add).0.values() =~= s.take(k));
                assert(t.split(pos, add).1.values() =~= s.skip(k));
            } else {
                lemma_split_values(*left, pos, add);
                let j = split_point(l.len(), pos, add) as int;
                assert(k == j);
                assert(t.split(pos, add).0.values() =~= s.take(k));
                assert(t.split(pos, add).1.values() =~= s.skip(k));
            }
        },
    }
}

/// The parts of a split heap with true counts are heaps with true counts,
/// bounded by what bounded the whole.
pub proof fn lemma_split_heap<K, V>(t: Tree<K, V>, pos: nat, add: nat, bound: u64)
    requires
        t.is_heap(),
        t.top_le(bound),
    ensures
        t.split(pos, add).0.is_heap(),
        t.split(pos, add).1.is_heap(),
        t.split(pos, add).0.top_le(bound),
        t.split(pos, add).1.top_le(bound),
    decreases t,
{
    match t {
        Tree::Empty => {},
        Tree::Node { left, priority, right, .. } => {
            let current = left.cnt() + add;
            if current <= pos {
                lemma_split_heap(*right, pos, current + 1, priority);
            } else {
                lemma_split_heap(*left, pos, add, priority);
            }
        },
    }
}

/// Splitting a heap at any position and merging the parts gives back the
/// values in their order.
pub proof fn lemma_split_merge_inverse<K, V>(t: Tree<K, V>, pos: nat)
    requires
        t.is_heap(),
    ensures
        Tree::merge(t.split(pos, 0).0, t.split(pos, 0).1).values() == t.values(),
        Tree::merge(t.split(pos, 0).0, t.split(pos, 0).1).is_heap(),
{
    let parts = t.split(pos, 0);
    lemma_split_values(t, pos, 0);
    lemma_split_heap(t, pos, 0, u64::MAX);
    lemma_merge_values(parts.0, parts.1);
    lemma_merge_heap(parts.0, parts.1, u64::MAX);
    let k = split_point(t.values().len(), pos, 0) as int;
    assert(t.values().take(k) + t.values().skip(k) =~= t.values());
}

/// Every key of the entries is after `lo` and before `hi`, where given.
pub open spec fn keys_within<K: Ord, V>(s: Seq<(K, V, u64)>, lo: Option<K>, hi: Option<K>) -> bool {
    forall|i: int|
        0 <= i < s.len() ==> (lo matches Some(l) ==> key_lt(l, (#[trigger] s[i]).0)) && (
        hi matches Some(h) ==> key_lt(s[i].0, h))
}

/// A tree keeps every key between the keys of its ancestors exactly if it
/// is a search tree with all keys between the outer bounds.
pub proof fn lemma_between<K: Ord, V>(t: Tree<K, V>, lo: Option<K>, hi: Option<K>)
    requires
        total_order::<K>(),
    ensures
        t.between(lo, hi) <==> t.search_ordered() && keys_within(t.in_order(), lo, hi),
    decreases t,
{
    match t {
        Tree::Empty => {},
        Tree::Node { left, key, value, priority, right, .. } => {
            let l = left.in_order();
            let r = right.in_order();
            let e = (key, value, priority);
            let s = l + seq![e] + r;
            lemma_between(*left, lo, Some(key));
            lemma_between(*right, Some(key), hi);
            if t.between(lo, hi) {
                assert forall|i: int| 0 <= i < s.len() implies (lo matches Some(b) ==> key_lt(
                    b,
                    (#[trigger] s[i]).0,
                )) && (hi matches Some(h) ==> key_lt(s[i].0, h)) by {
                    if i < l.len() {
                        assert(s[i] == l[i]);
                        if hi is Some {
                            lemma_lt_transitive(l[i].0, key, hi.unwrap());
                        }
                    } else if i > l.len() {
                        assert(s[i] == r[i - l.len() - 1]);
                        if lo is Some {
                            lemma_lt_transitive(lo.unwrap(), key, r[i - l.len() - 1].0);
                        }
                    }
                }
            }
            if t.search_ordered() && keys_within(s, lo, hi) {
                assert(s[l.len() as int] == e);
                assert forall|i: int| 0 <= i < l.len() implies (lo matches Some(b) ==> key_lt(
                    b,
                    (#[trigger] l[i]).0,
                )) && key_lt(l[i].0, key) by {
                    assert(s[i] == l[i]);
                }
                assert forall|i: int| 0 <= i < r.len() implies key_lt(key, (#[trigger] r[i]).0) && (
                hi matches Some(h) ==> key_lt(r[i].0, h)) by {
                    assert(s[l.len() + 1 + i] == r[i]);
                }
            }
        },
    }
}

} // verus!
