//! Bisection over any kind of value.

use vstd::prelude::*;

verus! {

/// `measure` shrinks whenever `midpoint_fn` puts a value between two
/// others: both halves measure less than the whole.
pub open spec fn narrows<T, M: Fn(&T, &T) -> Option<T>>(
    midpoint_fn: M,
    measure: spec_fn(T, T) -> nat,
) -> bool {
    forall|lo: T, hi: T, mid: T| #[trigger]
        call_ensures(midpoint_fn, (&lo, &hi), Some(mid)) ==> measure(lo, mid) < measure(lo, hi)
            && measure(mid, hi) < measure(lo, hi)
}

/// `lo` and `hi` are a place where the predicate turns from false to
/// true: it can be false of `lo` and true of `hi`, and `midpoint_fn` finds
/// nothing between them.
pub open spec fn turning_point<T, M: Fn(&T, &T) -> Option<T>, P: Fn(&T) -> bool>(
    midpoint_fn: M,
    predicate: P,
    lo: T,
    hi: T,
) -> bool {
    &&& call_ensures(predicate, (&lo,), false)
    &&& call_ensures(predicate, (&hi,), true)
    &&& call_ensures(midpoint_fn, (&lo, &hi), None::<T>)
}

// Narrows the interval, of whose ends the predicate is false and true, down
// to a turning point.
fn narrow<T, M: Fn(&T, &T) -> Option<T>, P: Fn(&T) -> bool>(
    midpoint_fn: &M,
    predicate: &P,
    lo: T,
    hi: T,
    Ghost(measure): Ghost<spec_fn(T, T) -> nat>,
) -> (r: (T, T))
    requires
        forall|a: T, b: T| call_requires(*midpoint_fn, (&a, &b)),
        forall|a: T| call_requires(*predicate, (&a,)),
        narrows(*midpoint_fn, measure),
        call_ensures(*predicate, (&lo,), false),
        call_ensures(*predicate, (&hi,), true),
    ensures
        turning_point(*midpoint_fn, *predicate, r.0, r.1),
    decreases measure(lo, hi),
{
    match midpoint_fn(&lo, &hi) {
        Some(mid) => {
            if predicate(&mid) {
                narrow(midpoint_fn, predicate, lo, mid, Ghost(measure))
            } else {
                narrow(midpoint_fn, predicate, mid, hi, Ghost(measure))
            }
        },
        None => (lo, hi),
    }
}

/// A general bisection search.
///
/// Between `lo` and `hi` it finds two values between which the predicate
/// turns from false to true. `midpoint_fn` gives a value between two
/// others, or nothing where there is none, as between two integers next to
/// each other; that ends the search. It must narrow the interval each
/// time, by some measure. There is no result if the predicate is true of
/// `lo` or false of `hi` to begin with.
pub fn bsearch<T, M: Fn(&T, &T) -> Option<T>, P: Fn(&T) -> bool>(
    midpoint_fn: M,
    predicate: P,
    lo: T,
    hi: T,
) -> (r: Option<(T, T)>)
    requires
        forall|a: T, b: T| call_requires(midpoint_fn, (&a, &b)),
        forall|a: T| call_requires(predicate, (&a,)),
        exists|measure: spec_fn(T, T) -> nat| #[trigger] narrows(midpoint_fn, measure),
    ensures
        match r {
            Some((a, b)) => turning_point(midpoint_fn, predicate, a, b),
            None => call_ensures(predicate, (&lo,), true) || call_ensures(predicate, (&hi,), false),
        },
{
    if predicate(&lo) || !predicate(&hi) {
        // The predicate is to be false of the lower end and true of the
        // upper end all along; without that there is nothing to search for.
        return None;
    }
    let ghost measure = choose|measure: spec_fn(T, T) -> nat| #[trigger] narrows(midpoint_fn, measure);
    Some(narrow(&midpoint_fn, &predicate, lo, hi, Ghost(measure)))
}

/// The place between `lo` and `hi` where the predicate turns from false
/// to true: the index of which it is false while it is true of the next.
/// There is none if `hi` is not above `lo`, or if the predicate is true of
/// `lo` or false of `hi` to begin with.
pub fn bisect<P: Fn(&usize) -> bool>(lo: usize, hi: usize, pred: P) -> (r: Option<usize>)
    requires
        forall|i: usize| call_requires(pred, (&i,)),
    ensures
        match r {
            Some(i) => lo <= i < hi && call_ensures(pred, (&i,), false) && call_ensures(
                pred,
                (&((i + 1) as usize),),
                true,
            ),
            None => lo >= hi || call_ensures(pred, (&lo,), true) || call_ensures(pred, (&hi,), false),
        },
{
    if lo >= hi || pred(&lo) || !pred(&hi) {
        return None;
    }
    let mut below = lo;
    let mut above = hi;
    while above - below > 1
        invariant
            forall|i: usize| call_requires(pred, (&i,)),
            lo <= below < above <= hi,
            call_ensures(pred, (&below,), false),
            call_ensures(pred, (&above,), true),
        decreases above - below,
    {
        let mid = below + (above - below) / 2;
        if pred(&mid) {
            above = mid;
        } else {
            below = mid;
        }
    }
    Some(below)
}

} // verus!
