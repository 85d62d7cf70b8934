//! Brent's algorithm for finding a cycle in repeated application of a function.

use crate::misc::{clones_are_same, lemma_walks_on, walks};
use vstd::laws_eq::obeys_concrete_eq;
use vstd::prelude::*;

verus! {

/// Applying `successor` to a state gives one state only.
pub open spec fn single_valued<S, F: Fn(&S) -> S>(successor: F) -> bool {
    forall|x: S, y: S, z: S|
        #![trigger call_ensures(successor, (&x,), y), call_ensures(successor, (&x,), z)]
        call_ensures(successor, (&x,), y) && call_ensures(successor, (&x,), z) ==> y == z
}

/// The state reached from `start` in `lead` steps is reached from itself
/// in `length` steps, at least one.
pub open spec fn returns_after<S, F: Fn(&S) -> S>(successor: F, start: S, lead: nat, length: nat) -> bool {
    length >= 1 && exists|x: S| #[trigger]
        walks(successor, start, x, lead) && walks(successor, x, x, length)
}

/// The way from `start` enters a cycle of `length` states after `lead`
/// steps: it returns there, no state returns to itself in fewer steps,
/// and no earlier state does in as many.
pub open spec fn is_cycle_of<S, F: Fn(&S) -> S>(successor: F, start: S, lead: nat, length: nat) -> bool {
    &&& returns_after(successor, start, lead, length)
    &&& forall|m: nat, l: nat| #[trigger] returns_after(successor, start, m, l) ==> length <= l
    &&& forall|m: nat| #[trigger] returns_after(successor, start, m, length) ==> lead <= m
}

// The state that `n` steps lead to.
spec fn state_at<S, F: Fn(&S) -> S>(successor: F, start: S, n: nat) -> S {
    choose|x: S| walks(successor, start, x, n)
}

// The state after `i` steps is met again `l` steps later.
spec fn repeats<S, F: Fn(&S) -> S>(successor: F, start: S, i: nat, l: nat) -> bool {
    state_at(successor, start, i) == state_at(successor, start, i + l)
}

// Some state is met again `l` steps later.
spec fn some_repeat<S, F: Fn(&S) -> S>(successor: F, start: S, l: nat) -> bool {
    exists|i: nat| repeats(successor, start, i, l)
}

// The least number of steps from `n` on after which some state is met
// again, or `limit` if that comes first.
spec fn length_from<S, F: Fn(&S) -> S>(successor: F, start: S, n: nat, limit: nat) -> nat
    decreases limit - n,
{
    if n >= limit || some_repeat(successor, start, n) {
        n
    } else {
        length_from(successor, start, n + 1, limit)
    }
}

proof fn lemma_length_from<S, F: Fn(&S) -> S>(successor: F, start: S, n: nat, limit: nat)
    requires
        n <= limit,
        some_repeat(successor, start, limit),
    ensures
        n <= length_from(successor, start, n, limit) <= limit,
        some_repeat(successor, start, length_from(successor, start, n, limit)),
        forall|k: nat|
            n <= k < length_from(successor, start, n, limit) ==> !#[trigger] some_repeat(
                successor,
                start,
                k,
            ),
    decreases limit - n,
{
    if !(n >= limit || some_repeat(successor, start, n)) {
        lemma_length_from(successor, start, n + 1, limit);
    }
}

// The first state from the `n`th on that is met again `length` steps
// later, or the `limit`th if that comes first.
spec fn lead_from<S, F: Fn(&S) -> S>(successor: F, start: S, length: nat, n: nat, limit: nat) -> nat
    decreases limit - n,
{
    if n >= limit || repeats(successor, start, n, length) {
        n
    } else {
        lead_from(successor, start, length, n + 1, limit)
    }
}

proof fn lemma_lead_from<S, F: Fn(&S) -> S>(successor: F, start: S, length: nat, n: nat, limit: nat)
    requires
        n <= limit,
        repeats(successor, start, limit, length),
    ensures
        n <= lead_from(successor, start, length, n, limit) <= limit,
        repeats(successor, start, lead_from(successor, start, length, n, limit), length),
        forall|k: nat|
            n <= k < lead_from(successor, start, length, n, limit) ==> !#[trigger] repeats(
                successor,
                start,
                k,
                length,
            ),
    decreases limit - n,
{
    if !(n >= limit || repeats(successor, start, n, length)) {
        lemma_lead_from(successor, start, length, n + 1, limit);
    }
}

proof fn lemma_unique<S, F: Fn(&S) -> S>(successor: F, a: S, b: S, c: S, n: nat)
    requires
        single_valued(successor),
        walks(successor, a, b, n),
        walks(successor, a, c, n),
    ensures
        b == c,
    decreases n,
{
    if n > 0 {
        let first = choose|mid: S| #[trigger]
            call_ensures(successor, (&a,), mid) && walks(successor, mid, b, (n - 1) as nat);
        let second = choose|mid: S| #[trigger]
            call_ensures(successor, (&a,), mid) && walks(successor, mid, c, (n - 1) as nat);
        lemma_unique(successor, first, b, c, (n - 1) as nat);
    }
}

proof fn lemma_split<S, F: Fn(&S) -> S>(successor: F, a: S, b: S, n: nat, k: nat) -> (y: S)
    requires
        walks(successor, a, b, n),
        k <= n,
    ensures
        walks(successor, a, y, k),
        walks(successor, y, b, (n - k) as nat),
    decreases k,
{
    if k == 0 {
        a
    } else {
        let mid = choose|mid: S| #[trigger]
            call_ensures(successor, (&a,), mid) && walks(successor, mid, b, (n - 1) as nat);
        let y = lemma_split(successor, mid, b, (n - 1) as nat, (k - 1) as nat);
        y
    }
}

// Round the cycle, any number of steps leads somewhere.
proof fn lemma_around<S, F: Fn(&S) -> S>(successor: F, x: S, length: nat, j: nat) -> (y: S)
    requires
        length >= 1,
        walks(successor, x, x, length),
    ensures
        walks(successor, x, y, j),
    decreases j,
{
    if j <= length {
        lemma_split(successor, x, x, length, j)
    } else {
        let y = lemma_around(successor, x, length, (j - length) as nat);
        lemma_walks_on(successor, x, x, y, length, (j - length) as nat);
        y
    }
}

// Where the way from `start` returns, any number of steps leads somewhere.
proof fn lemma_state_exists<S, F: Fn(&S) -> S>(successor: F, start: S, m0: nat, l0: nat, n: nat)
    requires
        returns_after(successor, start, m0, l0),
    ensures
        walks(successor, start, state_at(successor, start, n), n),
{
    let x = choose|x: S| #[trigger]
        walks(successor, start, x, m0) && walks(successor, x, x, l0);
    if n <= m0 {
        let y = lemma_split(successor, start, x, m0, n);
    } else {
        let y = lemma_around(successor, x, l0, (n - m0) as nat);
        lemma_walks_on(successor, start, x, y, m0, (n - m0) as nat);
    }
}

// From the state after `n` steps, `k` steps lead to the state after `n + k`.
proof fn lemma_onward<S, F: Fn(&S) -> S>(successor: F, start: S, m0: nat, l0: nat, n: nat, k: nat)
    requires
        single_valued(successor),
        returns_after(successor, start, m0, l0),
    ensures
        walks(successor, state_at(successor, start, n), state_at(successor, start, n + k), k),
{
    lemma_state_exists(successor, start, m0, l0, n);
    lemma_state_exists(successor, start, m0, l0, n + k);
    let y = lemma_split(successor, start, state_at(successor, start, n + k), n + k, n);
    lemma_unique(successor, start, y, state_at(successor, start, n), n);
}

// A step from the state after `n` steps gives the state after `n + 1`.
proof fn lemma_step<S, F: Fn(&S) -> S>(successor: F, start: S, m0: nat, l0: nat, n: nat, y: S)
    requires
        single_valued(successor),
        returns_after(successor, start, m0, l0),
        call_ensures(successor, (&state_at(successor, start, n),), y),
    ensures
        y == state_at(successor, start, n + 1),
{
    lemma_state_exists(successor, start, m0, l0, n);
    lemma_state_exists(successor, start, m0, l0, n + 1);
    assert(walks(successor, y, y, 0));
    assert(walks(successor, state_at(successor, start, n), y, 1));
    lemma_walks_on(successor, start, state_at(successor, start, n), y, n, 1);
    lemma_unique(successor, start, y, state_at(successor, start, n + 1), n + 1);
}

// What is met again is met again from every later state.
proof fn lemma_shift<S, F: Fn(&S) -> S>(successor: F, start: S, m0: nat, l0: nat, i: nat, l: nat, k: nat)
    requires
        single_valued(successor),
        returns_after(successor, start, m0, l0),
        repeats(successor, start, i, l),
    ensures
        repeats(successor, start, i + k, l),
{
    lemma_onward(successor, start, m0, l0, i, k);
    lemma_onward(successor, start, m0, l0, i + l, k);
    lemma_unique(
        successor,
        state_at(successor, start, i),
        state_at(successor, start, i + k),
        state_at(successor, start, i + l + k),
        k,
    );
}

// What is met again after `l` steps is met again after every multiple of `l`.
proof fn lemma_multiple<S, F: Fn(&S) -> S>(successor: F, start: S, m0: nat, l0: nat, i: nat, l: nat, n: nat)
    requires
        single_valued(successor),
        returns_after(successor, start, m0, l0),
        repeats(successor, start, i, l),
    ensures
        repeats(successor, start, i, n * l),
    decreases n,
{
    if n > 0 {
        lemma_multiple(successor, start, m0, l0, i, l, (n - 1) as nat);
        lemma_shift(successor, start, m0, l0, i, ((n - 1) * l) as nat, l);
        assert(i + l + (n - 1) * l == i + n * l) by (nonlinear_arith);
        assert(i + (n - 1) * l + l == i + n * l) by (nonlinear_arith);
    } else {
        assert(n * l == 0) by (nonlinear_arith)
            requires
                n == 0,
        ;
    }
}

// A state returns to itself exactly if it is met again.
proof fn lemma_returns<S, F: Fn(&S) -> S>(successor: F, start: S, m0: nat, l0: nat, i: nat, l: nat)
    requires
        single_valued(successor),
        returns_after(successor, start, m0, l0),
        l >= 1,
    ensures
        returns_after(successor, start, i, l) <==> repeats(successor, start, i, l),
{
    lemma_state_exists(successor, start, m0, l0, i);
    lemma_onward(successor, start, m0, l0, i, l);
    let here = state_at(successor, start, i);
    let there = state_at(successor, start, i + l);
    if returns_after(successor, start, i, l) {
        let x = choose|x: S| #[trigger]
            walks(successor, start, x, i) && walks(successor, x, x, l);
        lemma_unique(successor, start, x, here, i);
        lemma_unique(successor, here, x, there, l);
    }
    if repeats(successor, start, i, l) {
        assert(walks(successor, start, here, i) && walks(successor, here, here, l));
    }
}

// The length of the cycle and the lead to it, with what makes them so.
proof fn lemma_cycle<S, F: Fn(&S) -> S>(successor: F, start: S, m0: nat, l0: nat) -> (r: (nat, nat))
    requires
        single_valued(successor),
        returns_after(successor, start, m0, l0),
    ensures
        1 <= r.1 <= l0,
        r.0 <= m0,
        repeats(successor, start, r.0, r.1),
        forall|i: nat, l: nat| l >= 1 && #[trigger] repeats(successor, start, i, l) ==> r.1 <= l,
        forall|i: nat| #[trigger] repeats(successor, start, i, r.1) ==> r.0 <= i,
        // Whatever is met again at all is met again a cycle later.
        forall|i: nat, l: nat|
            l >= 1 && #[trigger] repeats(successor, start, i, l) ==> repeats(successor, start, i, r.1),
{
    lemma_returns(successor, start, m0, l0, m0, l0);
    assert(some_repeat(successor, start, l0)) by {
        assert(repeats(successor, start, m0, l0));
    }
    lemma_length_from(successor, start, 1, l0);
    let length = length_from(successor, start, 1, l0);
    let i0 = choose|i: nat| repeats(successor, start, i, length);
    lemma_lead_from(successor, start, length, 0, i0);
    let lead = lead_from(successor, start, length, 0, i0);
    assert forall|i: nat, l: nat| l >= 1 && #[trigger] repeats(successor, start, i, l) implies length
        <= l by {
        if l < length {
            assert(some_repeat(successor, start, l));
        }
    }
    assert forall|i: nat| #[trigger] repeats(successor, start, i, length) implies lead <= i by {

    }
    assert forall|i: nat, l: nat| l >= 1 && #[trigger] repeats(successor, start, i, l) implies repeats(
        successor,
        start,
        i,
        length,
    ) by {
        // Far enough along, the way is in the cycle.
        let n = lead;
        lemma_multiple(successor, start, m0, l0, i, l, n);
        lemma_shift(successor, start, m0, l0, i, n * l, length);
        assert(i + n * l >= lead) by (nonlinear_arith)
            requires
                n == lead,
                l >= 1,
        ;
        lemma_shift(successor, start, m0, l0, lead, length, (i + n * l - lead) as nat);
        assert(repeats(successor, start, i + n * l, length));
        assert(repeats(successor, start, i + length, n * l));
        assert(i + length + n * l == i + n * l + length);
    }
    assert(lead <= m0) by {
        assert(repeats(successor, start, m0, length));
    }
    (lead, length)
}

/// The number of steps from `start` to the cycle that repeated
/// application of `successor` leads into, and the number of states in
/// that cycle.
pub fn brents_algorithm<S, F>(successor: F, start: S) -> (r: (usize, usize)) where
    F: Fn(&S) -> S,
    S: PartialEq + Clone,

    requires
        forall|x: S| call_requires(successor, (&x,)),
        single_valued(successor),
        clones_are_same::<S>(),
        obeys_concrete_eq::<S>(),
        exists|m: nat, l: nat| #[trigger]
            returns_after(successor, start, m, l) && 2 * (m + l) <= usize::MAX,
    ensures
        is_cycle_of(successor, start, r.0 as nat, r.1 as nat),
{
    let ghost (m0, l0) = choose|m: nat, l: nat| #[trigger]
        returns_after(successor, start, m, l) && 2 * (m + l) <= usize::MAX;
    let ghost (lead, length) = lemma_cycle(successor, start, m0, l0);
    proof {
        reveal(obeys_concrete_eq);
        lemma_state_exists(successor, start, m0, l0, 0);
        lemma_state_exists(successor, start, m0, l0, 1);
    }

    // Main phase: search successive powers of two.
    let mut power: usize = 1;
    let mut cycle_length: usize = 1;
    let mut tortoise = start.clone();
    assert(cloned(start, tortoise));
    let mut hare = successor(&start);
    proof {
        lemma_step(successor, start, m0, l0, 0, hare);
    }
    let ghost mut at: nat = 0;

    while tortoise != hare
        invariant
            forall|x: S| call_requires(successor, (&x,)),
            single_valued(successor),
            clones_are_same::<S>(),
            obeys_concrete_eq::<S>(),
            returns_after(successor, start, m0, l0),
            2 * (m0 + l0) <= usize::MAX,
            1 <= length <= l0,
            lead <= m0,
            repeats(successor, start, lead, length),
            at + 1 == power,
            1 <= cycle_length <= power,
            power <= 2 * (lead + length),
            tortoise == state_at(successor, start, at),
            hare == state_at(successor, start, at + cycle_length as nat),
            forall|c: nat| 1 <= c < cycle_length ==> !repeats(successor, start, at, c),
        decreases 2 * (lead + length) + 1 - power, power - cycle_length,
    {
        proof {
            reveal(obeys_concrete_eq);
            assert(!repeats(successor, start, at, cycle_length as nat));
        }
        if power == cycle_length {
            proof {
                // Within reach of the cycle, the hare would have met the tortoise.
                if at >= lead && length <= power {
                    lemma_shift(successor, start, m0, l0, lead, length, (at - lead) as nat);
                    assert(repeats(successor, start, at, length));
                }
                assert(power <= lead + length);
            }
            // Start a new power of two.
            tortoise = hare.clone();
            assert(cloned(hare, tortoise));
            proof {
                at = at + cycle_length as nat;
            }
            power *= 2;
            cycle_length = 0;
        }
        hare = successor(&hare);
        proof {
            lemma_step(successor, start, m0, l0, at + cycle_length as nat, hare);
        }
        cycle_length += 1;
    }
    proof {
        reveal(obeys_concrete_eq);
        assert(repeats(successor, start, at, cycle_length as nat));
        assert(repeats(successor, start, at, length));
        assert(cycle_length == length);
    }

    // Find the position of the first repetition of that length: the hare
    // goes ahead by the length of the cycle,
    tortoise = start.clone();
    assert(cloned(start, tortoise));
    hare = start;
    let mut ahead: usize = 0;
    while ahead < cycle_length
        invariant
            forall|x: S| call_requires(successor, (&x,)),
            single_valued(successor),
            returns_after(successor, start, m0, l0),
            ahead <= cycle_length,
            hare == state_at(successor, start, ahead as nat),
        decreases cycle_length - ahead,
    {
        hare = successor(&hare);
        proof {
            lemma_step(successor, start, m0, l0, ahead as nat, hare);
        }
        ahead += 1;
    }

    // and then both go at the same speed until they agree.
    let mut cycle_start: usize = 0;
    while tortoise != hare
        invariant
            forall|x: S| call_requires(successor, (&x,)),
            single_valued(successor),
            obeys_concrete_eq::<S>(),
            returns_after(successor, start, m0, l0),
            2 * (m0 + l0) <= usize::MAX,
            lead <= m0,
            cycle_length == length,
            repeats(successor, start, lead, length),
            cycle_start <= lead,
            tortoise == state_at(successor, start, cycle_start as nat),
            hare == state_at(successor, start, cycle_start as nat + length),
        decreases lead - cycle_start,
    {
        proof {
            reveal(obeys_concrete_eq);
            assert(!repeats(successor, start, cycle_start as nat, length));
        }
        tortoise = successor(&tortoise);
        hare = successor(&hare);
        proof {
            lemma_step(successor, start, m0, l0, cycle_start as nat, tortoise);
            lemma_step(successor, start, m0, l0, cycle_start as nat + length, hare);
        }
        cycle_start += 1;
    }
    proof {
        reveal(obeys_concrete_eq);
        assert(repeats(successor, start, cycle_start as nat, length));
        assert(cycle_start == lead);
        lemma_returns(successor, start, m0, l0, lead, length);
        assert forall|m: nat, l: nat| #[trigger]
            returns_after(successor, start, m, l) implies length <= l by {
            lemma_returns(successor, start, m0, l0, m, l);
        }
        assert forall|m: nat| #[trigger] returns_after(successor, start, m, length) implies lead
            <= m by {
            lemma_returns(successor, start, m0, l0, m, length);
        }
    }
    (cycle_start, cycle_length)
}

} // verus!
