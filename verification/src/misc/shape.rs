//! How a tree lies in a slot store.
//!
//! A [`Shape`] names the handles of a tree's nodes and how they hang
//! together. The store holds such a tree if every node's links are those of
//! the shape and no handle occurs twice; the tree it stands for is read off
//! node by node.

use crate::misc::cartesian_tree::CTNode;
use crate::misc::slab::{Handle, Slab};
use crate::misc::tree_model::Tree;
use vstd::prelude::*;

verus! {

/// The handles of the nodes of a tree, in the places of the nodes.
pub enum Shape {
    Leaf,
    Fork { left: Box<Shape>, at: Handle, right: Box<Shape> },
}

impl Shape {
    /// The handle of the root.
    pub open spec fn top(self) -> Option<Handle> {
        match self {
            Shape::Leaf => None,
            Shape::Fork { at, .. } => Some(at),
        }
    }

    /// The shape of the left subtree.
    pub open spec fn lhs(self) -> Shape {
        match self {
            Shape::Leaf => Shape::Leaf,
            Shape::Fork { left, .. } => *left,
        }
    }

    /// The shape of the right subtree.
    pub open spec fn rhs(self) -> Shape {
        match self {
            Shape::Leaf => Shape::Leaf,
            Shape::Fork { right, .. } => *right,
        }
    }

    /// The shape after a right rotation; a shape without a left child is
    /// left alone.
    pub open spec fn rotated_right(self) -> Shape {
        match self {
            Shape::Fork { left, at, right } => match *left {
                Shape::Fork { left: ll, at: lat, right: lr } => Shape::Fork {
                    left: ll,
                    at: lat,
                    right: Box::new(Shape::Fork { left: lr, at, right }),
                },
                Shape::Leaf => self,
            },
            Shape::Leaf => self,
        }
    }

    /// The shape after a left rotation; a shape without a right child is
    /// left alone.
    pub open spec fn rotated_left(self) -> Shape {
        match self {
            Shape::Fork { left, at, right } => match *right {
                Shape::Fork { left: rl, at: rat, right: rr } => Shape::Fork {
                    left: Box::new(Shape::Fork { left, at, right: rl }),
                    at: rat,
                    right: rr,
                },
                Shape::Leaf => self,
            },
            Shape::Leaf => self,
        }
    }

    /// The handles of all nodes.
    pub open spec fn handles(self) -> Set<Handle>
        decreases self,
    {
        match self {
            Shape::Leaf => Set::empty(),
            Shape::Fork { left, at, right } => left.handles().union(right.handles()).insert(at),
        }
    }

    /// The number of nodes.
    pub open spec fn size(self) -> nat
        decreases self,
    {
        match self {
            Shape::Leaf => 0,
            Shape::Fork { left, right, .. } => 1 + left.size() + right.size(),
        }
    }

    /// No handle occurs twice.
    pub open spec fn distinct(self) -> bool
        decreases self,
    {
        match self {
            Shape::Leaf => true,
            Shape::Fork { left, at, right } => {
                &&& left.distinct()
                &&& right.distinct()
                &&& !left.handles().contains(at)
                &&& !right.handles().contains(at)
                &&& left.handles().disjoint(right.handles())
            },
        }
    }

    /// Every node is in `nodes`, linked to its children as the shape says.
    pub open(crate) spec fn linked<K, V>(self, nodes: Map<Handle, CTNode<K, V>>) -> bool
        decreases self,
    {
        match self {
            Shape::Leaf => true,
            Shape::Fork { left, at, right } => {
                &&& nodes.dom().contains(at)
                &&& nodes[at].left == left.top()
                &&& nodes[at].right == right.top()
                &&& left.linked(nodes)
                &&& right.linked(nodes)
            },
        }
    }

    /// The tree that `nodes` holds in this shape.
    pub open(crate) spec fn decode<K, V>(self, nodes: Map<Handle, CTNode<K, V>>) -> Tree<K, V>
        decreases self,
    {
        match self {
            Shape::Leaf => Tree::Empty,
            Shape::Fork { left, at, right } => Tree::Node {
                left: Box::new(left.decode(nodes)),
                key: nodes[at].key,
                value: nodes[at].value,
                priority: nodes[at].priority,
                count: nodes[at].count as nat,
                right: Box::new(right.decode(nodes)),
            },
        }
    }

    /// The handle of the node at position `k`, found by the counts.
    pub open(crate) spec fn handle_at<K, V>(self, nodes: Map<Handle, CTNode<K, V>>, k: nat) -> Option<
        Handle,
    >
        decreases self,
    {
        match self {
            Shape::Leaf => None,
            Shape::Fork { left, at, right } => {
                let before = left.decode(nodes).cnt();
                if k == before {
                    Some(at)
                } else if k < before {
                    left.handle_at(nodes, k)
                } else {
                    right.handle_at(nodes, (k - before - 1) as nat)
                }
            },
        }
    }

    /// `nodes` holds a tree of this shape.
    pub open(crate) spec fn held_by<K, V>(self, nodes: Map<Handle, CTNode<K, V>>) -> bool {
        self.distinct() && self.linked(nodes)
    }
}

/// The store went from `before` to `after` by work on the tree of shape `s`
/// alone, which left a tree of shape `t`: the nodes outside `s` are as they
/// were, those of `s` that are not in `t` are gone, and what `t` has beyond
/// `s` was not in the store.
pub open(crate) spec fn reshaped<K, V>(
    before: Map<Handle, CTNode<K, V>>,
    s: Shape,
    after: Map<Handle, CTNode<K, V>>,
    t: Shape,
) -> bool {
    &&& forall|h: Handle|
        #![trigger after.dom().contains(h)]
        #![trigger t.handles().contains(h)]
        after.dom().contains(h) <==> (before.dom().contains(h) && !s.handles().contains(h))
            || t.handles().contains(h)
    &&& forall|h: Handle|
        before.dom().contains(h) && !s.handles().contains(h) ==> (#[trigger] after[h]) == before[h]
    &&& forall|h: Handle| #[trigger]
        t.handles().contains(h) ==> s.handles().contains(h) || !before.dom().contains(h)
}

/// A shape has as many handles as nodes when none occurs twice.
pub proof fn lemma_handles_len(s: Shape)
    requires
        s.distinct(),
    ensures
        s.handles().finite(),
        s.handles().len() == s.size(),
    decreases s,
{
    match s {
        Shape::Leaf => {},
        Shape::Fork { left, at, right } => {
            lemma_handles_len(*left);
            lemma_handles_len(*right);
            vstd::set_lib::lemma_set_disjoint_lens(left.handles(), right.handles());
        },
    }
}

/// The nodes of a held tree are in the store.
pub proof fn lemma_handles_in_store<K, V>(s: Shape, nodes: Map<Handle, CTNode<K, V>>)
    requires
        s.linked(nodes),
    ensures
        s.handles().subset_of(nodes.dom()),
    decreases s,
{
    match s {
        Shape::Leaf => {},
        Shape::Fork { left, at, right } => {
            lemma_handles_in_store(*left, nodes);
            lemma_handles_in_store(*right, nodes);
        },
    }
}

/// What a store holds in a shape depends on the shape's own nodes only.
pub proof fn lemma_frame<K, V>(
    s: Shape,
    before: Map<Handle, CTNode<K, V>>,
    after: Map<Handle, CTNode<K, V>>,
)
    requires
        s.linked(before),
        forall|h: Handle| #[trigger]
            s.handles().contains(h) ==> after.dom().contains(h) && after[h] == before[h],
    ensures
        s.linked(after),
        s.decode(after) == s.decode(before),
    decreases s,
{
    match s {
        Shape::Leaf => {},
        Shape::Fork { left, at, right } => {
            assert(s.handles().contains(at));
            assert forall|h: Handle| #[trigger] left.handles().contains(h) implies after.dom().contains(
                h,
            ) && after[h] == before[h] by {
                assert(s.handles().contains(h));
            }
            assert forall|h: Handle| #[trigger] right.handles().contains(h) implies after.dom().contains(
                h,
            ) && after[h] == before[h] by {
                assert(s.handles().contains(h));
            }
            lemma_frame(*left, before, after);
            lemma_frame(*right, before, after);
        },
    }
}

/// A held tree has as many nodes as its shape.
pub proof fn lemma_decode_size<K, V>(s: Shape, nodes: Map<Handle, CTNode<K, V>>)
    ensures
        s.decode(nodes).size() == s.size(),
    decreases s,
{
    match s {
        Shape::Leaf => {},
        Shape::Fork { left, at, right } => {
            lemma_decode_size(*left, nodes);
            lemma_decode_size(*right, nodes);
        },
    }
}

/// Work on a tree and then on what it left is work on the first tree.
pub proof fn lemma_reshaped_twice<K, V>(
    a: Map<Handle, CTNode<K, V>>,
    s: Shape,
    b: Map<Handle, CTNode<K, V>>,
    t: Shape,
    c: Map<Handle, CTNode<K, V>>,
    u: Shape,
)
    requires
        reshaped(a, s, b, t),
        reshaped(b, t, c, u),
    ensures
        reshaped(a, s, c, u),
{
    assert forall|h: Handle| a.dom().contains(h) && !s.handles().contains(h) implies (#[trigger] c[h])
        == a[h] by {
        assert(b[h] == a[h]);
        assert(b.dom().contains(h));
        assert(!t.handles().contains(h));
    }
    assert forall|h: Handle|
        #![trigger c.dom().contains(h)]
        #![trigger u.handles().contains(h)]
        c.dom().contains(h) <==> (a.dom().contains(h) && !s.handles().contains(h))
            || u.handles().contains(h) by {
        assert(b.dom().contains(h) <==> (a.dom().contains(h) && !s.handles().contains(h))
            || t.handles().contains(h));
    }
    assert forall|h: Handle| #[trigger] u.handles().contains(h) implies s.handles().contains(h)
        || !a.dom().contains(h) by {
        if t.handles().contains(h) {
        } else {
            assert(!b.dom().contains(h));
        }
    }
}

/// After work on the left subtree, the root is given the new left child:
/// the store then holds the tree with the new left subtree, and the right
/// subtree is as it was.
pub(crate) proof fn lemma_left_replaced<K, V>(
    before: Map<Handle, CTNode<K, V>>,
    s: Shape,
    mid: Map<Handle, CTNode<K, V>>,
    tl: Shape,
    after: Map<Handle, CTNode<K, V>>,
)
    requires
        s is Fork,
        s.held_by(before),
        reshaped(before, s.lhs(), mid, tl),
        tl.held_by(mid),
        after == mid.insert(s->at, after[s->at]),
        after[s->at].left == tl.top(),
        after[s->at].right == before[s->at].right,
    ensures
        mid.dom().contains(s->at),
        mid[s->at] == before[s->at],
        (Shape::Fork { left: Box::new(tl), at: s->at, right: Box::new(s.rhs()) }).held_by(after),
        reshaped(before, s, after, Shape::Fork { left: Box::new(tl), at: s->at, right: Box::new(s.rhs()) }),
        tl.decode(after) == tl.decode(mid),
        s.rhs().decode(after) == s.rhs().decode(before),
{
    let at = s->at;
    let sl = s.lhs();
    let sr = s.rhs();
    let t = Shape::Fork { left: Box::new(tl), at, right: Box::new(sr) };
    lemma_handles_in_store(s, before);
    lemma_handles_in_store(sr, before);
    lemma_handles_in_store(tl, mid);
    assert(s.handles().contains(at));
    assert(mid[at] == before[at]);
    assert forall|h: Handle| #[trigger] sr.handles().contains(h) implies mid.dom().contains(h) && mid[h]
        == before[h] by {
        assert(s.handles().contains(h));
        assert(before.dom().contains(h));
    }
    lemma_frame(sr, before, mid);
    lemma_frame(sr, mid, after);
    lemma_frame(tl, mid, after);
    assert(t.handles() =~= tl.handles().union(sr.handles()).insert(at));
    assert forall|h: Handle|
        #![trigger after.dom().contains(h)]
        #![trigger t.handles().contains(h)]
        after.dom().contains(h) <==> (before.dom().contains(h) && !s.handles().contains(h))
            || t.handles().contains(h) by {
        assert(mid.dom().contains(h) <==> (before.dom().contains(h) && !sl.handles().contains(h))
            || tl.handles().contains(h));
    }
    assert forall|h: Handle| before.dom().contains(h) && !s.handles().contains(h) implies (
    #[trigger] after[h]) == before[h] by {
        assert(mid[h] == before[h]);
    }
}

/// After work on the right subtree, the root is given the new right child:
/// the store then holds the tree with the new right subtree, and the left
/// subtree is as it was.
pub(crate) proof fn lemma_right_replaced<K, V>(
    before: Map<Handle, CTNode<K, V>>,
    s: Shape,
    mid: Map<Handle, CTNode<K, V>>,
    tr: Shape,
    after: Map<Handle, CTNode<K, V>>,
)
    requires
        s is Fork,
        s.held_by(before),
        reshaped(before, s.rhs(), mid, tr),
        tr.held_by(mid),
        after == mid.insert(s->at, after[s->at]),
        after[s->at].right == tr.top(),
        after[s->at].left == before[s->at].left,
    ensures
        mid.dom().contains(s->at),
        mid[s->at] == before[s->at],
        (Shape::Fork { left: Box::new(s.lhs()), at: s->at, right: Box::new(tr) }).held_by(after),
        reshaped(before, s, after, Shape::Fork { left: Box::new(s.lhs()), at: s->at, right: Box::new(tr) }),
        tr.decode(after) == tr.decode(mid),
        s.lhs().decode(after) == s.lhs().decode(before),
{
    let at = s->at;
    let sl = s.lhs();
    let sr = s.rhs();
    let t = Shape::Fork { left: Box::new(sl), at, right: Box::new(tr) };
    lemma_handles_in_store(s, before);
    lemma_handles_in_store(sl, before);
    lemma_handles_in_store(tr, mid);
    assert(s.handles().contains(at));
    assert(mid[at] == before[at]);
    assert forall|h: Handle| #[trigger] sl.handles().contains(h) implies mid.dom().contains(h) && mid[h]
        == before[h] by {
        assert(s.handles().contains(h));
        assert(before.dom().contains(h));
    }
    lemma_frame(sl, before, mid);
    lemma_frame(sl, mid, after);
    lemma_frame(tr, mid, after);
    assert(t.handles() =~= sl.handles().union(tr.handles()).insert(at));
    assert forall|h: Handle|
        #![trigger after.dom().contains(h)]
        #![trigger t.handles().contains(h)]
        after.dom().contains(h) <==> (before.dom().contains(h) && !s.handles().contains(h))
            || t.handles().contains(h) by {
        assert(mid.dom().contains(h) <==> (before.dom().contains(h) && !sr.handles().contains(h))
            || tr.handles().contains(h));
    }
    assert forall|h: Handle| before.dom().contains(h) && !s.handles().contains(h) implies (
    #[trigger] after[h]) == before[h] by {
        assert(mid[h] == before[h]);
    }
}

/// A tree whose counts are consistent has its size as its root's count.
pub proof fn lemma_count_is_size<K, V>(t: Tree<K, V>)
    requires
        t.counts_consistent(),
    ensures
        t.cnt() == t.size(),
    decreases t,
{
    match t {
        Tree::Empty => {},
        Tree::Node { left, right, .. } => {
            lemma_count_is_size(*left);
            lemma_count_is_size(*right);
        },
    }
}

/// A tree held by a store has a size that fits a machine word.
pub proof fn lemma_size_fits<K, V>(s: Shape, store: &Slab<CTNode<K, V>>)
    requires
        s.held_by(store@),
    ensures
        s.size() <= usize::MAX,
        s.decode(store@).size() == s.size(),
{
    lemma_handles_len(s);
    lemma_handles_in_store(s, store@);
    store.lemma_len_bounded();
    vstd::set_lib::lemma_len_subset(s.handles(), store@.dom());
    lemma_decode_size(s, store@);
}

/// The store went from `before` to `after` by changes to nodes of `region`
/// only; no node came or went.
pub open(crate) spec fn relinked<K, V>(
    before: Map<Handle, CTNode<K, V>>,
    region: Set<Handle>,
    after: Map<Handle, CTNode<K, V>>,
) -> bool {
    &&& forall|h: Handle| #[trigger] after.dom().contains(h) <==> before.dom().contains(h)
    &&& forall|h: Handle|
        before.dom().contains(h) && !region.contains(h) ==> (#[trigger] after[h]) == before[h]
}

/// Work that left the shape as it was relinked nodes of the shape only.
pub proof fn lemma_reshaped_is_relinked<K, V>(
    before: Map<Handle, CTNode<K, V>>,
    s: Shape,
    after: Map<Handle, CTNode<K, V>>,
)
    requires
        s.linked(before),
        reshaped(before, s, after, s),
    ensures
        relinked(before, s.handles(), after),
{
    lemma_handles_in_store(s, before);
}

/// A tree apart from the region that was relinked is held as before.
pub proof fn lemma_untouched<K, V>(
    s: Shape,
    before: Map<Handle, CTNode<K, V>>,
    region: Set<Handle>,
    after: Map<Handle, CTNode<K, V>>,
)
    requires
        s.linked(before),
        relinked(before, region, after),
        s.handles().disjoint(region),
    ensures
        s.linked(after),
        s.decode(after) == s.decode(before),
{
    lemma_handles_in_store(s, before);
    assert forall|h: Handle| #[trigger] s.handles().contains(h) implies after.dom().contains(h)
        && after[h] == before[h] by {
        assert(before.dom().contains(h));
        assert(!region.contains(h));
    }
    lemma_frame(s, before, after);
}

/// After nodes of `region`, which is apart from the root and the left
/// subtree, were relinked into a tree, the root is given that tree as its
/// right child: the store then holds the whole, with the left subtree as
/// it was.
pub(crate) proof fn lemma_graft_right<K, V>(
    before: Map<Handle, CTNode<K, V>>,
    s: Shape,
    region: Set<Handle>,
    mid: Map<Handle, CTNode<K, V>>,
    tr: Shape,
    after: Map<Handle, CTNode<K, V>>,
)
    requires
        s is Fork,
        s.held_by(before),
        relinked(before, region, mid),
        tr.held_by(mid),
        tr.handles().subset_of(region),
        region.disjoint(s.lhs().handles()),
        !region.contains(s->at),
        after == mid.insert(s->at, after[s->at]),
        after[s->at].right == tr.top(),
        after[s->at].left == before[s->at].left,
    ensures
        mid[s->at] == before[s->at],
        (Shape::Fork { left: Box::new(s.lhs()), at: s->at, right: Box::new(tr) }).held_by(after),
        tr.decode(after) == tr.decode(mid),
        s.lhs().decode(after) == s.lhs().decode(before),
        relinked(before, region.insert(s->at), after),
{
    let at = s->at;
    let sl = s.lhs();
    lemma_handles_in_store(s, before);
    assert(s.handles().contains(at));
    lemma_untouched(sl, before, region, mid);
    lemma_frame(sl, mid, after);
    assert forall|h: Handle| #[trigger] tr.handles().contains(h) implies after.dom().contains(h)
        && after[h] == mid[h] by {
        assert(region.contains(h));
        lemma_handles_in_store(tr, mid);
    }
    lemma_frame(tr, mid, after);
    assert forall|h: Handle| tr.handles().contains(h) implies !sl.handles().contains(h) by {
        assert(region.contains(h));
    }
}

/// After nodes of `region`, which is apart from the root and the right
/// subtree, were relinked into a tree, the root is given that tree as its
/// left child: the store then holds the whole, with the right subtree as
/// it was.
pub(crate) proof fn lemma_graft_left<K, V>(
    before: Map<Handle, CTNode<K, V>>,
    s: Shape,
    region: Set<Handle>,
    mid: Map<Handle, CTNode<K, V>>,
    tl: Shape,
    after: Map<Handle, CTNode<K, V>>,
)
    requires
        s is Fork,
        s.held_by(before),
        relinked(before, region, mid),
        tl.held_by(mid),
        tl.handles().subset_of(region),
        region.disjoint(s.rhs().handles()),
        !region.contains(s->at),
        after == mid.insert(s->at, after[s->at]),
        after[s->at].left == tl.top(),
        after[s->at].right == before[s->at].right,
    ensures
        mid[s->at] == before[s->at],
        (Shape::Fork { left: Box::new(tl), at: s->at, right: Box::new(s.rhs()) }).held_by(after),
        tl.decode(after) == tl.decode(mid),
        s.rhs().decode(after) == s.rhs().decode(before),
        relinked(before, region.insert(s->at), after),
{
    let at = s->at;
    let sr = s.rhs();
    lemma_handles_in_store(s, before);
    assert(s.handles().contains(at));
    lemma_untouched(sr, before, region, mid);
    lemma_frame(sr, mid, after);
    assert forall|h: Handle| #[trigger] tl.handles().contains(h) implies after.dom().contains(h)
        && after[h] == mid[h] by {
        assert(region.contains(h));
        lemma_handles_in_store(tl, mid);
    }
    lemma_frame(tl, mid, after);
    assert forall|h: Handle| tl.handles().contains(h) implies !sr.handles().contains(h) by {
        assert(region.contains(h));
    }
}

/// The node found at a position by the counts is a node of the tree and
/// holds the value at that position; beyond the last position none is found.
pub(crate) proof fn lemma_handle_at_value<K, V>(s: Shape, nodes: Map<Handle, CTNode<K, V>>, k: nat)
    requires
        s.decode(nodes).counts_consistent(),
    ensures
        s.handle_at(nodes, k) is Some <==> k < s.decode(nodes).values().len(),
        s.handle_at(nodes, k) is Some ==> s.handles().contains(s.handle_at(nodes, k).unwrap())
            && nodes[s.handle_at(nodes, k).unwrap()].value == s.decode(nodes).values()[k as int],
    decreases s,
{
    match s {
        Shape::Leaf => {},
        Shape::Fork { left, at, right } => {
            let l = left.decode(nodes).values();
            let r = right.decode(nodes).values();
            let whole = l + seq![nodes[at].value] + r;
            crate::misc::tree_laws::lemma_count_is_values_len(left.decode(nodes));
            crate::misc::tree_laws::lemma_count_is_values_len(right.decode(nodes));
            let before = left.decode(nodes).cnt();
            lemma_handle_at_value(*left, nodes, k);
            lemma_handle_at_value(*right, nodes, (k - before - 1) as nat);
            if k < before {
                assert(whole[k as int] == l[k as int]);
            } else if k > before && k < whole.len() {
                assert(whole[k as int] == r[k - before - 1]);
            }
        },
    }
}

/// Writing a value into the node at a position changes the value at that
/// position and nothing else of the tree.
pub(crate) proof fn lemma_value_written<K, V>(
    s: Shape,
    before: Map<Handle, CTNode<K, V>>,
    k: nat,
    after: Map<Handle, CTNode<K, V>>,
)
    requires
        s.held_by(before),
        s.decode(before).counts_consistent(),
        s.handle_at(before, k) is Some,
        after == before.insert(s.handle_at(before, k).unwrap(), after[s.handle_at(before, k).unwrap()]),
        after[s.handle_at(before, k).unwrap()].key == before[s.handle_at(before, k).unwrap()].key,
        after[s.handle_at(before, k).unwrap()].priority == before[s.handle_at(
            before,
            k,
        ).unwrap()].priority,
        after[s.handle_at(before, k).unwrap()].count == before[s.handle_at(before, k).unwrap()].count,
        after[s.handle_at(before, k).unwrap()].left == before[s.handle_at(before, k).unwrap()].left,
        after[s.handle_at(before, k).unwrap()].right == before[s.handle_at(before, k).unwrap()].right,
    ensures
        s.held_by(after),
        k < s.decode(before).values().len(),
        s.decode(after).values() == s.decode(before).values().update(
            k as int,
            after[s.handle_at(before, k).unwrap()].value,
        ),
        s.decode(after).counts_consistent(),
        s.decode(after).cnt() == s.decode(before).cnt(),
        s.decode(before).heap_ordered() ==> s.decode(after).heap_ordered(),
        forall|b: u64| s.decode(after).top_le(b) == s.decode(before).top_le(b),
    decreases s,
{
    let h = s.handle_at(before, k).unwrap();
    lemma_handle_at_value(s, before, k);
    match s {
        Shape::Leaf => {},
        Shape::Fork { left, at, right } => {
            let l = left.decode(before).values();
            let r = right.decode(before).values();
            crate::misc::tree_laws::lemma_count_is_values_len(left.decode(before));
            crate::misc::tree_laws::lemma_count_is_values_len(right.decode(before));
            let lc = left.decode(before).cnt();
            lemma_handles_in_store(s, before);
            lemma_handles_in_store(*left, before);
            lemma_handles_in_store(*right, before);
            if k == lc {
                lemma_frame(*left, before, after);
                lemma_frame(*right, before, after);
                assert(s.decode(after).values() =~= s.decode(before).values().update(
                    k as int,
                    after[h].value,
                ));
            } else if k < lc {
                lemma_handle_at_value(*left, before, k);
                assert(left.handles().contains(h));
                lemma_value_written(*left, before, k, after);
                lemma_frame(*right, before, after);
                assert(after[at] == before[at]);
                assert(s.decode(after).values() =~= s.decode(before).values().update(
                    k as int,
                    after[h].value,
                ));
            } else {
                let j = (k - lc - 1) as nat;
                lemma_handle_at_value(*right, before, j);
                assert(right.handles().contains(h));
                lemma_value_written(*right, before, j, after);
                lemma_frame(*left, before, after);
                assert(after[at] == before[at]);
                assert(s.decode(after).values() =~= s.decode(before).values().update(
                    k as int,
                    after[h].value,
                ));
            }
        },
    }
}

/// Relinking within two parts of a region, one after the other, is
/// relinking within the region.
pub proof fn lemma_relinked_twice<K, V>(
    a: Map<Handle, CTNode<K, V>>,
    first: Set<Handle>,
    b: Map<Handle, CTNode<K, V>>,
    second: Set<Handle>,
    c: Map<Handle, CTNode<K, V>>,
    region: Set<Handle>,
)
    requires
        relinked(a, first, b),
        relinked(b, second, c),
        first.subset_of(region),
        second.subset_of(region),
    ensures
        relinked(a, region, c),
{
    assert forall|h: Handle| a.dom().contains(h) && !region.contains(h) implies (#[trigger] c[h])
        == a[h] by {
        assert(b.dom().contains(h));
        assert(b[h] == a[h]);
    }
    assert forall|h: Handle| #[trigger] c.dom().contains(h) <==> a.dom().contains(h) by {
        assert(b.dom().contains(h) <==> a.dom().contains(h));
    }
}

/// A shape without nodes is the leaf.
pub proof fn lemma_size_zero(s: Shape)
    requires
        s.size() == 0,
    ensures
        s == Shape::Leaf,
{
}

} // verus!
