//! What a keyed treap holds, as the sequence of its entries in key order,
//! and what lookups and updates mean for such a sequence.

use crate::misc::key_order::{
    key_lt, lemma_lt_asymmetric, lemma_lt_irreflexive, lemma_lt_total, lemma_lt_transitive,
    total_order,
};
use vstd::prelude::*;

verus! {

/// Each key is before every later key.
pub open spec fn keys_increasing<K: Ord, V>(s: Seq<(K, V, u64)>) -> bool {
    forall|i: int, j: int| 0 <= i < j < s.len() ==> key_lt((#[trigger] s[i]).0, (#[trigger] s[j]).0)
}

/// Some entry has the key.
pub open spec fn has_key<K, V>(s: Seq<(K, V, u64)>, key: K) -> bool {
    exists|i: int| 0 <= i < s.len() && (#[trigger] s[i]).0 == key
}

/// The position of an entry with the key, where there is one.
pub open spec fn rank_of<K, V>(s: Seq<(K, V, u64)>, key: K) -> int {
    choose|i: int| 0 <= i < s.len() && (#[trigger] s[i]).0 == key
}

/// The number of entries whose key is before `key`.
pub open spec fn count_below<K: Ord, V>(s: Seq<(K, V, u64)>, key: K) -> nat
    decreases s.len(),
{
    if s.len() == 0 {
        0
    } else {
        count_below(s.drop_last(), key) + if key_lt(s.last().0, key) {
            1nat
        } else {
            0nat
        }
    }
}

/// The value and priority under `key`.
pub open spec fn lookup<K, V>(s: Seq<(K, V, u64)>, key: K) -> Option<(V, u64)> {
    if has_key(s, key) {
        Some((s[rank_of(s, key)].1, s[rank_of(s, key)].2))
    } else {
        None
    }
}

/// The position of `key`.
pub open spec fn position<K, V>(s: Seq<(K, V, u64)>, key: K) -> Option<nat> {
    if has_key(s, key) {
        Some(rank_of(s, key) as nat)
    } else {
        None
    }
}

/// The entry at position `k`.
pub open spec fn entry_at<K, V>(s: Seq<(K, V, u64)>, k: nat) -> Option<(K, V, u64)> {
    if k < s.len() {
        Some(s[k as int])
    } else {
        None
    }
}

/// The entries with `value` under `key`. An entry that is there keeps its
/// place and its priority; a new one goes where the key belongs, with
/// `priority`.
pub open spec fn with_entry<K: Ord, V>(s: Seq<(K, V, u64)>, key: K, value: V, priority: u64) -> Seq<
    (K, V, u64),
> {
    if has_key(s, key) {
        s.update(rank_of(s, key), (key, value, s[rank_of(s, key)].2))
    } else {
        s.insert(count_below(s, key) as int, (key, value, priority))
    }
}

/// The entries without the one under `key`.
pub open spec fn without_key<K, V>(s: Seq<(K, V, u64)>, key: K) -> Seq<(K, V, u64)> {
    if has_key(s, key) {
        s.remove(rank_of(s, key))
    } else {
        s
    }
}

/// The entries without the one at position `k`.
pub open spec fn without_position<K, V>(s: Seq<(K, V, u64)>, k: nat) -> Seq<(K, V, u64)> {
    if k < s.len() {
        s.remove(k as int)
    } else {
        s
    }
}

/// In increasing entries a key occurs at one position only.
pub proof fn lemma_rank_unique<K: Ord, V>(s: Seq<(K, V, u64)>, key: K, i: int)
    requires
        total_order::<K>(),
        keys_increasing(s),
        0 <= i < s.len(),
        s[i].0 == key,
    ensures
        has_key(s, key),
        rank_of(s, key) == i,
{
    let j = rank_of(s, key);
    assert(0 <= j < s.len() && s[j].0 == key);
    lemma_lt_irreflexive(key);
    if j < i {
        assert(key_lt(s[j].0, s[i].0));
    } else if i < j {
        assert(key_lt(s[i].0, s[j].0));
    }
}

/// Counting below a key adds up over parts.
pub proof fn lemma_count_below_concat<K: Ord, V>(a: Seq<(K, V, u64)>, b: Seq<(K, V, u64)>, key: K)
    ensures
        count_below(a + b, key) == count_below(a, key) + count_below(b, key),
    decreases b.len(),
{
    if b.len() == 0 {
        assert(a + b =~= a);
    } else {
        lemma_count_below_concat(a, b.drop_last(), key);
        assert((a + b).drop_last() =~= a + b.drop_last());
        assert((a + b).last() == b.last());
    }
}

/// Where every key is before `key`, all entries count.
pub proof fn lemma_count_below_all<K: Ord, V>(s: Seq<(K, V, u64)>, key: K)
    requires
        forall|i: int| 0 <= i < s.len() ==> key_lt((#[trigger] s[i]).0, key),
    ensures
        count_below(s, key) == s.len(),
    decreases s.len(),
{
    if s.len() > 0 {
        lemma_count_below_all(s.drop_last(), key);
    }
}

/// Where no key is before `key`, no entry counts.
pub proof fn lemma_count_below_none<K: Ord, V>(s: Seq<(K, V, u64)>, key: K)
    requires
        forall|i: int| 0 <= i < s.len() ==> !key_lt((#[trigger] s[i]).0, key),
    ensures
        count_below(s, key) == 0,
    decreases s.len(),
{
    if s.len() > 0 {
        lemma_count_below_none(s.drop_last(), key);
    }
}

/// At most every entry counts.
pub proof fn lemma_count_below_le<K: Ord, V>(s: Seq<(K, V, u64)>, key: K)
    ensures
        count_below(s, key) <= s.len(),
    decreases s.len(),
{
    if s.len() > 0 {
        lemma_count_below_le(s.drop_last(), key);
    }
}

/// What the parts of increasing entries `l + [e] + r` know of each other.
pub proof fn lemma_parts<K: Ord, V>(l: Seq<(K, V, u64)>, e: (K, V, u64), r: Seq<(K, V, u64)>)
    requires
        total_order::<K>(),
        keys_increasing(l + seq![e] + r),
    ensures
        keys_increasing(l),
        keys_increasing(r),
        forall|i: int| 0 <= i < l.len() ==> key_lt((#[trigger] l[i]).0, e.0),
        forall|i: int| 0 <= i < r.len() ==> key_lt(e.0, (#[trigger] r[i]).0),
{
    let s = l + seq![e] + r;
    assert(s[l.len() as int] == e);
    assert forall|i: int, j: int| 0 <= i < j < l.len() implies key_lt((#[trigger] l[i]).0, (#[trigger] l[j]).0) by {
        assert(s[i] == l[i] && s[j] == l[j]);
    }
    assert forall|i: int, j: int| 0 <= i < j < r.len() implies key_lt((#[trigger] r[i]).0, (#[trigger] r[j]).0) by {
        assert(s[l.len() + 1 + i] == r[i] && s[l.len() + 1 + j] == r[j]);
    }
    assert forall|i: int| 0 <= i < l.len() implies key_lt((#[trigger] l[i]).0, e.0) by {
        assert(s[i] == l[i]);
    }
    assert forall|i: int| 0 <= i < r.len() implies key_lt(e.0, (#[trigger] r[i]).0) by {
        assert(s[l.len() + 1 + i] == r[i]);
    }
}

/// Increasing parts with a key between them are increasing as a whole.
pub proof fn lemma_whole<K: Ord, V>(l: Seq<(K, V, u64)>, e: (K, V, u64), r: Seq<(K, V, u64)>)
    requires
        total_order::<K>(),
        keys_increasing(l),
        keys_increasing(r),
        forall|i: int| 0 <= i < l.len() ==> key_lt((#[trigger] l[i]).0, e.0),
        forall|i: int| 0 <= i < r.len() ==> key_lt(e.0, (#[trigger] r[i]).0),
    ensures
        keys_increasing(l + seq![e] + r),
{
    let s = l + seq![e] + r;
    let n = l.len() as int;
    assert forall|i: int, j: int| 0 <= i < j < s.len() implies key_lt((#[trigger] s[i]).0, (#[trigger] s[j]).0) by {
        if j < n {
            assert(s[i] == l[i] && s[j] == l[j]);
        } else if j == n {
            assert(s[i] == l[i] && s[j] == e);
        } else if i < n {
            assert(s[i] == l[i] && s[j] == r[j - n - 1]);
            lemma_lt_transitive(l[i].0, e.0, r[j - n - 1].0);
        } else if i == n {
            assert(s[i] == e && s[j] == r[j - n - 1]);
        } else {
            assert(s[i] == r[i - n - 1] && s[j] == r[j - n - 1]);
        }
    }
}

/// Where a key stands in increasing entries `l + [e] + r`, by how it
/// compares with the key of `e`.
pub proof fn lemma_has_key_parts<K: Ord, V>(
    l: Seq<(K, V, u64)>,
    e: (K, V, u64),
    r: Seq<(K, V, u64)>,
    key: K,
)
    requires
        total_order::<K>(),
        keys_increasing(l + seq![e] + r),
    ensures
        key == e.0 ==> has_key(l + seq![e] + r, key) && rank_of(l + seq![e] + r, key) == l.len(),
        key_lt(key, e.0) ==> (has_key(l + seq![e] + r, key) <==> has_key(l, key)),
        key_lt(key, e.0) && has_key(l, key) ==> rank_of(l + seq![e] + r, key) == rank_of(l, key),
        key_lt(e.0, key) ==> (has_key(l + seq![e] + r, key) <==> has_key(r, key)),
        key_lt(e.0, key) && has_key(r, key) ==> rank_of(l + seq![e] + r, key) == l.len() + 1
            + rank_of(r, key),
        key_lt(key, e.0) ==> count_below(l + seq![e] + r, key) == count_below(l, key),
        key_lt(e.0, key) ==> count_below(l + seq![e] + r, key) == l.len() + 1 + count_below(r, key),
{
    let s = l + seq![e] + r;
    let n = l.len() as int;
    lemma_parts(l, e, r);
    assert(s[n] == e);
    if key == e.0 {
        lemma_rank_unique(s, key, n);
    }
    if key_lt(key, e.0) {
        lemma_lt_asymmetric(key, e.0);
        if has_key(l, key) {
            let i = rank_of(l, key);
            assert(s[i] == l[i]);
            lemma_rank_unique(s, key, i);
        }
        if has_key(s, key) {
            let i = rank_of(s, key);
            if i < n {
                assert(s[i] == l[i]);
            } else if i > n {
                assert(s[i] == r[i - n - 1]);
                lemma_lt_transitive(key, e.0, r[i - n - 1].0);
                lemma_lt_irreflexive(key);
            }
        }
        assert forall|i: int| 0 <= i < (seq![e] + r).len() implies !key_lt(
            (#[trigger] (seq![e] + r)[i]).0,
            key,
        ) by {
            if i > 0 {
                assert((seq![e] + r)[i] == r[i - 1]);
                lemma_lt_transitive(key, e.0, r[i - 1].0);
                lemma_lt_asymmetric(key, r[i - 1].0);
            }
        }
        lemma_count_below_none(seq![e] + r, key);
        assert(s =~= l + (seq![e] + r));
        lemma_count_below_concat(l, seq![e] + r, key);
    }
    if key_lt(e.0, key) {
        lemma_lt_asymmetric(e.0, key);
        if has_key(r, key) {
            let i = rank_of(r, key);
            assert(s[n + 1 + i] == r[i]);
            lemma_rank_unique(s, key, n + 1 + i);
        }
        if has_key(s, key) {
            let i = rank_of(s, key);
            if i < n {
                assert(s[i] == l[i]);
                lemma_lt_transitive(l[i].0, e.0, key);
                lemma_lt_irreflexive(key);
            } else if i > n {
                assert(s[i] == r[i - n - 1]);
            }
        }
        assert forall|i: int| 0 <= i < (l + seq![e]).len() implies key_lt(
            (#[trigger] (l + seq![e])[i]).0,
            key,
        ) by {
            if i < n {
                assert((l + seq![e])[i] == l[i]);
                lemma_lt_transitive(l[i].0, e.0, key);
            }
        }
        lemma_count_below_all(l + seq![e], key);
        lemma_count_below_concat(l + seq![e], r, key);
    }
}

/// In increasing entries without `key`, the entries below the key come
/// first and all others are above it.
pub proof fn lemma_count_below_splits<K: Ord, V>(s: Seq<(K, V, u64)>, key: K)
    requires
        total_order::<K>(),
        keys_increasing(s),
        !has_key(s, key),
    ensures
        count_below(s, key) <= s.len(),
        forall|i: int| 0 <= i < count_below(s, key) ==> key_lt((#[trigger] s[i]).0, key),
        forall|i: int| count_below(s, key) <= i < s.len() ==> key_lt(key, (#[trigger] s[i]).0),
    decreases s.len(),
{
    if s.len() > 0 {
        let front = s.drop_last();
        let last = s.last();
        assert(s[s.len() - 1] == last);
        assert forall|i: int, j: int| 0 <= i < j < front.len() implies key_lt(
            (#[trigger] front[i]).0,
            (#[trigger] front[j]).0,
        ) by {
            assert(front[i] == s[i] && front[j] == s[j]);
        }
        if has_key(front, key) {
            let i = rank_of(front, key);
            assert(s[i] == front[i]);
            assert(has_key(s, key));
        }
        lemma_count_below_splits(front, key);
        lemma_lt_total(last.0, key);
        if key_lt(last.0, key) {
            assert forall|i: int| 0 <= i < front.len() implies key_lt((#[trigger] front[i]).0, key) by {
                assert(front[i] == s[i]);
                assert(key_lt(s[i].0, s[s.len() - 1].0));
                lemma_lt_transitive(front[i].0, last.0, key);
            }
            lemma_count_below_all(front, key);
            assert forall|i: int| 0 <= i < count_below(s, key) implies key_lt((#[trigger] s[i]).0, key) by {
                if i < front.len() {
                    assert(s[i] == front[i]);
                }
            }
        } else {
            assert(key_lt(key, last.0));
            assert forall|i: int| 0 <= i < count_below(s, key) implies key_lt((#[trigger] s[i]).0, key) by {
                assert(s[i] == front[i]);
            }
            assert forall|i: int| count_below(s, key) <= i < s.len() implies key_lt(
                key,
                (#[trigger] s[i]).0,
            ) by {
                if i < front.len() {
                    assert(s[i] == front[i]);
                }
            }
        }
    }
}

/// A key that is after the keys of the first `c` entries and before all
/// others is not among the entries and belongs at position `c`.
pub proof fn lemma_belongs_at<K: Ord, V>(s: Seq<(K, V, u64)>, key: K, c: int)
    requires
        total_order::<K>(),
        0 <= c <= s.len(),
        forall|i: int| 0 <= i < c ==> key_lt((#[trigger] s[i]).0, key),
        forall|i: int| c <= i < s.len() ==> key_lt(key, (#[trigger] s[i]).0),
    ensures
        !has_key(s, key),
        count_below(s, key) == c,
{
    if has_key(s, key) {
        let i = rank_of(s, key);
        lemma_lt_irreflexive(key);
        assert(key_lt(s[i].0, key) || key_lt(key, s[i].0));
    }
    let a = s.take(c);
    let b = s.skip(c);
    assert(s =~= a + b);
    lemma_count_below_concat(a, b, key);
    assert forall|j: int| 0 <= j < a.len() implies key_lt((#[trigger] a[j]).0, key) by {
        assert(a[j] == s[j]);
    }
    lemma_count_below_all(a, key);
    assert forall|j: int| 0 <= j < b.len() implies !key_lt((#[trigger] b[j]).0, key) by {
        assert(b[j] == s[c + j]);
        lemma_lt_asymmetric(key, b[j].0);
    }
    lemma_count_below_none(b, key);
}

/// Putting an entry into increasing entries leaves them increasing.
pub proof fn lemma_with_entry_increasing<K: Ord, V>(
    s: Seq<(K, V, u64)>,
    key: K,
    value: V,
    priority: u64,
)
    requires
        total_order::<K>(),
        keys_increasing(s),
    ensures
        keys_increasing(with_entry(s, key, value, priority)),
        has_key(with_entry(s, key, value, priority), key),
        with_entry(s, key, value, priority).len() == if has_key(s, key) {
            s.len()
        } else {
            s.len() + 1
        },
{
    let t = with_entry(s, key, value, priority);
    if has_key(s, key) {
        let r = rank_of(s, key);
        assert forall|i: int, j: int| 0 <= i < j < t.len() implies key_lt((#[trigger] t[i]).0, (#[trigger] t[j]).0) by {
            assert(t[i].0 == s[i].0 && t[j].0 == s[j].0);
        }
        assert(t[r].0 == key);
    } else {
        lemma_count_below_splits(s, key);
        let c = count_below(s, key) as int;
        assert forall|i: int, j: int| 0 <= i < j < t.len() implies key_lt((#[trigger] t[i]).0, (#[trigger] t[j]).0) by {
            if j < c {
                assert(t[i] == s[i] && t[j] == s[j]);
            } else if j == c {
                assert(t[i] == s[i]);
            } else if i < c {
                assert(t[i] == s[i] && t[j] == s[j - 1]);
            } else if i == c {
                assert(t[j] == s[j - 1]);
            } else {
                assert(t[i] == s[i - 1] && t[j] == s[j - 1]);
            }
        }
        assert(t[c].0 == key);
    }
}

/// Taking the entry at a position out of increasing entries leaves them
/// increasing, and without the key that was there.
pub proof fn lemma_remove_increasing<K: Ord, V>(s: Seq<(K, V, u64)>, k: int)
    requires
        total_order::<K>(),
        keys_increasing(s),
        0 <= k < s.len(),
    ensures
        keys_increasing(s.remove(k)),
        !has_key(s.remove(k), s[k].0),
{
    let t = s.remove(k);
    assert forall|i: int, j: int| 0 <= i < j < t.len() implies key_lt((#[trigger] t[i]).0, (#[trigger] t[j]).0) by {
        let a = if i < k { i } else { i + 1 };
        let b = if j < k { j } else { j + 1 };
        assert(t[i] == s[a] && t[j] == s[b]);
    }
    if has_key(t, s[k].0) {
        let i = rank_of(t, s[k].0);
        let a = if i < k { i } else { i + 1 };
        assert(t[i] == s[a]);
        lemma_rank_unique(s, s[k].0, k);
        lemma_rank_unique(s, s[k].0, a);
    }
}

} // verus!
