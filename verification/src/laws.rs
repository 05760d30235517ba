//! What holds of the operations together.
//!
//! Each statement here is proved from the definitions that the contracts of
//! the operations use, so that it holds of whatever those contracts admit.

use vstd::prelude::*;
use crate::order::{
    answers, before, lemma_same_members, lone, orders, sorted_by, stable_order, stably_sorted,
    total_on,
};
use crate::sort::sortedness::{first_break, lemma_sorted_is_found_sorted, sortedness, step_fine};
use crate::InvalidOrderError;

verus! {

/// Sorting, then looking: where the comparison follows a relation that orders
/// the elements, the sorted sequence, which holds the same elements in
/// ascending order, is found sorted by a look with the same comparison.
pub proof fn lemma_sorted_result_is_found_sorted<T, F: FnMut(&T, &T) -> Option<bool>>(
    compare: F,
    lt: spec_fn(T, T) -> Option<bool>,
    s: Seq<T>,
    out: Seq<T>,
)
    requires
        orders(compare, lt, s),
        out.to_multiset() == s.to_multiset(),
        sorted_by(out, lt),
    ensures
        answers(compare, lt, out),
        sortedness(out, lt) == Ok::<bool, InvalidOrderError>(true),
{
    lemma_same_members(s, out);
    lemma_sorted_is_found_sorted(out, lt);
}

/// Stability: the elements of a stably sorted sequence can be traced to the
/// positions at which they stood, each position being taken once, so that of
/// two elements of which the later is not greater, and which are therefore
/// equal, the earlier one stood first.
pub proof fn lemma_stably_sorted_keeps_order<T>(
    out: Seq<T>,
    s: Seq<T>,
    lt: spec_fn(T, T) -> Option<bool>,
) -> (order: Seq<int>)
    requires
        total_on(lt, s),
        stably_sorted(out, s, lt),
    ensures
        order.len() == s.len(),
        out.len() == s.len(),
        order.no_duplicates(),
        forall|p: int| 0 <= p < out.len() ==> 0 <= #[trigger] order[p] < s.len(),
        forall|p: int| 0 <= p < out.len() ==> #[trigger] out[p] == s[order[p]],
        forall|p: int, q: int|
            0 <= p < q < out.len() && lt(out[p], out[q]) == Some(false) ==> #[trigger] order[p]
                < #[trigger] order[q],
{
    let order = choose|order: Seq<int>|
        #![trigger stable_order(order, s, lt)]
        stable_order(order, s, lt) && out.len() == s.len() && forall|p: int|
            0 <= p < out.len() ==> #[trigger] out[p] == s[order[p]];
    assert forall|p: int, q: int|
        0 <= p < q < out.len() && lt(out[p], out[q]) == Some(false) implies #[trigger] order[p]
        < #[trigger] order[q] by {
        assert(before(s, lt, order[p], order[q]));
    }
    assert forall|p: int, q: int| 0 <= p < order.len() && 0 <= q < order.len() && p != q implies order[p]
        != order[q] by {
        assert(s.contains(s[order[p]]));
        if p < q {
            assert(before(s, lt, order[p], order[q]));
        } else {
            assert(before(s, lt, order[q], order[p]));
        }
    }
    order
}

/// A list of `n` positions below `n` that ascends strictly lists each position
/// at its own place.
proof fn lemma_ascending_positions(order: Seq<int>, p: int)
    requires
        forall|k: int| 0 <= k < order.len() ==> 0 <= #[trigger] order[k] < order.len(),
        forall|i: int, j: int| 0 <= i < j < order.len() ==> #[trigger] order[i] < #[trigger] order[j],
        0 <= p < order.len(),
    ensures
        order[p] == p,
{
    lemma_not_below(order, p);
    lemma_not_above(order, p);
}

/// A list of positions that ascends strictly has at place `p` a position that
/// is not below `p`.
proof fn lemma_not_below(order: Seq<int>, p: int)
    requires
        forall|k: int| 0 <= k < order.len() ==> 0 <= #[trigger] order[k] < order.len(),
        forall|i: int, j: int| 0 <= i < j < order.len() ==> #[trigger] order[i] < #[trigger] order[j],
        0 <= p < order.len(),
    ensures
        order[p] >= p,
    decreases p,
{
    if p > 0 {
        lemma_not_below(order, p - 1);
        assert(order[p - 1] < order[p]);
    }
}

/// A list of positions below its length that ascends strictly has at place `p`
/// a position that is not above `p`.
proof fn lemma_not_above(order: Seq<int>, p: int)
    requires
        forall|k: int| 0 <= k < order.len() ==> 0 <= #[trigger] order[k] < order.len(),
        forall|i: int, j: int| 0 <= i < j < order.len() ==> #[trigger] order[i] < #[trigger] order[j],
        0 <= p < order.len(),
    ensures
        order[p] <= p,
    decreases order.len() - p,
{
    if p < order.len() - 1 {
        lemma_not_above(order, p + 1);
        assert(order[p] < order[p + 1]);
    }
}

/// Sorting what is sorted: a sequence that is in ascending order is its own
/// stable sort, element for element.
pub proof fn lemma_stable_sort_of_sorted_is_same<T>(
    out: Seq<T>,
    s: Seq<T>,
    lt: spec_fn(T, T) -> Option<bool>,
)
    requires
        total_on(lt, s),
        sorted_by(s, lt),
        stably_sorted(out, s, lt),
    ensures
        out == s,
{
    let order = choose|order: Seq<int>|
        #![trigger stable_order(order, s, lt)]
        stable_order(order, s, lt) && out.len() == s.len() && forall|p: int|
            0 <= p < out.len() ==> #[trigger] out[p] == s[order[p]];
    assert forall|i: int, j: int| 0 <= i < j < order.len() implies #[trigger] order[i]
        < #[trigger] order[j] by {
        let a = order[i];
        let b = order[j];
        assert(before(s, lt, a, b));
        assert(s.contains(s[a]) && s.contains(s[b]));
        if a > b {
            assert(lt(s[a], s[b]) == Some(false));
        } else if a == b {
            assert(lt(s[a], s[a]) == Some(false));
        }
    }
    assert forall|p: int| 0 <= p < out.len() implies out[p] == s[p] by {
        lemma_ascending_positions(order, p);
    }
    assert(out =~= s);
}

/// A look fails where it meets the first pair of neighbours for which there
/// is no answer, if all pairs before it are in order.
pub proof fn lemma_look_fails_at_undefined<T>(
    s: Seq<T>,
    lt: spec_fn(T, T) -> Option<bool>,
    k: int,
)
    requires
        0 <= k < s.len() - 1,
        forall|j: int| 0 <= j < k ==> #[trigger] step_fine(s, lt, j),
        lt(s[k + 1], s[k]) is None,
    ensures
        sortedness(s, lt) == Err::<bool, InvalidOrderError>(InvalidOrderError),
{
    assert(first_break(s, lt, k));
    let m = choose|m: int| first_break(s, lt, m);
    if m < k {
        assert(step_fine(s, lt, m));
    } else if k < m {
        assert(step_fine(s, lt, k));
    }
}

/// Where `lt` has answers it is a strict weak order: nothing is less than
/// itself, "less" is transitive, and so is "not less".
pub open spec fn partial_on<T>(lt: spec_fn(T, T) -> Option<bool>, s: Seq<T>) -> bool {
    &&& forall|a: T| s.contains(a) ==> #[trigger] lt(a, a) != Some(true)
    &&& forall|a: T, b: T, c: T|
        s.contains(a) && s.contains(b) && s.contains(c) && #[trigger] lt(a, b) == Some(true)
            && #[trigger] lt(b, c) == Some(true) ==> lt(a, c) == Some(true)
    &&& forall|a: T, b: T, c: T|
        s.contains(a) && s.contains(b) && s.contains(c) && #[trigger] lt(a, b) == Some(false)
            && #[trigger] lt(b, c) == Some(false) ==> lt(a, c) == Some(false)
}

/// `lt` has an answer for two members of `s` just when both are sound. So do
/// floating-point numbers compare, of which all but the not-a-number values
/// are sound.
pub open spec fn answers_among<T>(
    lt: spec_fn(T, T) -> Option<bool>,
    sound: spec_fn(T) -> bool,
    s: Seq<T>,
) -> bool {
    forall|a: T, b: T|
        s.contains(a) && s.contains(b) ==> ((#[trigger] lt(a, b)) is Some <==> sound(a) && sound(b))
}

/// Failure detection for sorting: a sort that succeeds on every sequence of
/// fewer than two elements and on every sequence that the relation orders, and
/// fails on every longer sequence with an element about which there is no
/// answer, succeeds on a sequence of sound and unsound elements just when it
/// has fewer than two elements or all are sound. One unsound element among
/// others makes it fail.
pub proof fn lemma_sort_succeeds_iff_all_sound<T, F: FnMut(&T, &T) -> Option<bool>>(
    compare: F,
    lt: spec_fn(T, T) -> Option<bool>,
    sound: spec_fn(T) -> bool,
    s: Seq<T>,
    ok: bool,
)
    requires
        answers(compare, lt, s),
        partial_on(lt, s),
        answers_among(lt, sound, s),
        s.len() < 2 ==> ok,
        orders(compare, lt, s) ==> ok,
        forall|x: T| s.len() >= 2 && s.contains(x) && #[trigger] lone(lt, s, x) ==> !ok,
    ensures
        ok <==> (s.len() < 2 || forall|x: T| s.contains(x) ==> sound(x)),
{
    if s.len() >= 2 {
        if forall|x: T| s.contains(x) ==> sound(x) {
            assert forall|a: T, b: T| s.contains(a) && s.contains(b) implies (#[trigger] lt(
                a,
                b,
            )) is Some by {}
            assert forall|a: T| s.contains(a) implies #[trigger] lt(a, a) == Some(false) by {
                assert(lt(a, a) is Some);
            }
            assert(total_on(lt, s));
        } else {
            let x = choose|x: T| s.contains(x) && !sound(x);
            assert forall|y: T| s.contains(y) implies (#[trigger] lt(x, y)) is None by {}
            assert forall|y: T| s.contains(y) implies (#[trigger] lt(y, x)) is None by {}
            assert(lone(lt, s, x));
        }
    }
}

} // verus!
