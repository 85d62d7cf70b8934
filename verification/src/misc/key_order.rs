//! Keys are ordered through `Ord`. This module states what the trees ask of
//! that order and gives the three-way comparison they descend by.

use std::cmp::Ordering;
use vstd::prelude::*;
use vstd::std_specs::cmp::OrdSpec;

verus! {

/// How a probe stands relative to a stored key.
#[derive(Clone, Copy, Debug, PartialEq, Eq)]
pub enum Rel {
    Less,
    Equal,
    Greater,
}

/// `a` is ordered strictly before `b`.
pub open spec fn key_lt<K: Ord>(a: K, b: K) -> bool {
    a.cmp_spec(&b) == Ordering::Less
}

/// `Ord` on `K` behaves as specified, and is a strict total order in which
/// only identical keys compare equal.
#[verifier::opaque]
pub open spec fn total_order<K: Ord>() -> bool {
    &&& K::obeys_cmp_spec()
    &&& forall|a: K, b: K| (#[trigger] a.cmp_spec(&b)) == Ordering::Equal <==> a == b
    &&& forall|a: K, b: K|
        (#[trigger] a.cmp_spec(&b)) == Ordering::Greater <==> b.cmp_spec(&a) == Ordering::Less
    &&& forall|a: K, b: K, c: K|
        (#[trigger] a.cmp_spec(&b)) == Ordering::Less && (#[trigger] b.cmp_spec(&c))
            == Ordering::Less ==> a.cmp_spec(&c) == Ordering::Less
}

/// No key is before itself.
pub proof fn lemma_lt_irreflexive<K: Ord>(a: K)
    requires
        total_order::<K>(),
    ensures
        !key_lt(a, a),
{
    reveal(total_order);
}

/// Of two keys at most one is before the other.
pub proof fn lemma_lt_asymmetric<K: Ord>(a: K, b: K)
    requires
        total_order::<K>(),
        key_lt(a, b),
    ensures
        !key_lt(b, a),
        a != b,
{
    reveal(total_order);
}

/// Two different keys are ordered one way or the other.
pub proof fn lemma_lt_total<K: Ord>(a: K, b: K)
    requires
        total_order::<K>(),
    ensures
        key_lt(a, b) || a == b || key_lt(b, a),
{
    reveal(total_order);
}

/// Before is transitive.
pub proof fn lemma_lt_transitive<K: Ord>(a: K, b: K, c: K)
    requires
        total_order::<K>(),
        key_lt(a, b),
        key_lt(b, c),
    ensures
        key_lt(a, c),
{
    reveal(total_order);
}

/// Unsigned 64-bit keys are totally ordered.
pub proof fn lemma_u64_total_order()
    ensures
        total_order::<u64>(),
{
    reveal(total_order);
}

/// Signed 32-bit keys are totally ordered.
pub proof fn lemma_i32_total_order()
    ensures
        total_order::<i32>(),
{
    reveal(total_order);
}

/// Machine-word keys are totally ordered.
pub proof fn lemma_usize_total_order()
    ensures
        total_order::<usize>(),
{
    reveal(total_order);
}

/// Compares two scored entries by their scores, the higher score first.
pub fn descending<N, K: Ord>(a: &(N, K), b: &(N, K)) -> (r: Ordering)
    ensures
        total_order::<K>() ==> r == b.1.cmp_spec(&a.1),
{
    proof {
        reveal(total_order);
    }
    b.1.cmp(&a.1)
}

/// Compares `a` with `b`.
pub fn compare<K: Ord>(a: &K, b: &K) -> (r: Rel)
    ensures
        total_order::<K>() ==> (r == Rel::Less <==> key_lt(*a, *b)),
        total_order::<K>() ==> (r == Rel::Equal <==> *a == *b),
        total_order::<K>() ==> (r == Rel::Greater <==> key_lt(*b, *a)),
{
    proof {
        reveal(total_order);
    }
    match a.cmp(b) {
        Ordering::Less => Rel::Less,
        Ordering::Equal => Rel::Equal,
        Ordering::Greater => Rel::Greater,
    }
}

} // verus!
