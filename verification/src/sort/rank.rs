//! Ranking positions instead of elements.
//!
//! The stable sort never moves an element while it compares. It arranges a
//! list of positions into the order in which the elements are to stand, and
//! moves the elements once, at the end. A position belongs before another if
//! its element is less, or if neither element is less and it is the smaller
//! position: a strict order of the positions with no ties, so that arranging
//! the positions by it is sorting the elements stably.

use vstd::prelude::*;
use crate::order::{
    before, callable_on, heard, lemma_before_transitive, lemma_rearranged_whole, orders, rearranged,
    refused, weighed,
};

verus! {

/// Whatever relation orders `s` by this comparison puts position `a` before
/// position `b`.
pub open spec fn placed<T, F: FnMut(&T, &T) -> Option<bool>>(
    compare: F,
    s: Seq<T>,
    a: int,
    b: int,
) -> bool {
    forall|lt: spec_fn(T, T) -> Option<bool>| #[trigger]
        orders(compare, lt, s) ==> before(s, lt, a, b)
}

/// Every entry of `idx` is a position of a sequence of length `n`, and none
/// occurs twice.
pub open spec fn arrangement(idx: Seq<usize>, n: nat) -> bool {
    &&& forall|p: int| 0 <= p < idx.len() ==> (#[trigger] idx[p]) < n
    &&& idx.no_duplicates()
}

/// Between `lo` and `hi` every listed position is placed before all that follow.
pub open spec fn ascending<T, F: FnMut(&T, &T) -> Option<bool>>(
    compare: F,
    s: Seq<T>,
    idx: Seq<usize>,
    lo: int,
    hi: int,
) -> bool {
    forall|p: int, q: int|
        lo <= p < q < hi ==> placed(compare, s, #[trigger] idx[p] as int, #[trigger] idx[q] as int)
}

/// Between `lo` and `hi` every listed position holds an element that the
/// comparison has an answer about.
pub open spec fn all_weighed<T, F: FnMut(&T, &T) -> Option<bool>>(
    compare: F,
    s: Seq<T>,
    idx: Seq<usize>,
    lo: int,
    hi: int,
) -> bool {
    forall|p: int| lo <= p < hi ==> weighed(compare, s, s[#[trigger] idx[p] as int])
}

/// Being placed before is transitive among positions.
pub proof fn lemma_placed_transitive<T, F: FnMut(&T, &T) -> Option<bool>>(
    compare: F,
    s: Seq<T>,
    a: int,
    b: int,
    c: int,
)
    requires
        0 <= a < s.len(),
        0 <= b < s.len(),
        0 <= c < s.len(),
        placed(compare, s, a, b),
        placed(compare, s, b, c),
    ensures
        placed(compare, s, a, c),
{
    assert forall|lt: spec_fn(T, T) -> Option<bool>| #[trigger]
        orders(compare, lt, s) implies before(s, lt, a, c) by {
        lemma_before_transitive(s, lt, a, b, c);
    }
}

/// Rearranging a stretch of an arrangement leaves an arrangement.
pub proof fn lemma_rearranged_arrangement(old: Seq<usize>, new: Seq<usize>, lo: int, hi: int, n: nat)
    requires
        0 <= lo <= hi <= old.len(),
        rearranged(old, new, lo, hi),
        arrangement(old, n),
    ensures
        arrangement(new, n),
        new.to_multiset() == old.to_multiset(),
{
    lemma_rearranged_whole(old, new, lo, hi);
    old.lemma_multiset_has_no_duplicates();
    new.lemma_multiset_has_no_duplicates_conv();
    assert forall|p: int| 0 <= p < new.len() implies (#[trigger] new[p]) < n by {
        vstd::seq_lib::to_multiset_contains(new, new[p]);
        vstd::seq_lib::to_multiset_contains(old, new[p]);
        assert(new.contains(new[p]));
        let q = choose|q: int| 0 <= q < old.len() && old[q] == new[p];
        assert(old[q] < n);
    }
}

/// Asks the comparison whether position `a` belongs before position `b`. The
/// later of the two positions is always the one asked about, so that equal
/// elements are told apart by where they stand.
pub(crate) fn precedes<T, F: FnMut(&T, &T) -> Option<bool>>(
    v: &[T],
    a: usize,
    b: usize,
    compare: &mut F,
) -> (r: Option<bool>)
    requires
        a < v@.len(),
        b < v@.len(),
        a != b,
        callable_on(*old(compare), v@),
    ensures
        *final(compare) == *old(compare),
        r is None ==> refused(*old(compare), v@),
        r == Some(true) ==> placed(*old(compare), v@, a as int, b as int),
        r == Some(false) ==> placed(*old(compare), v@, b as int, a as int),
        r is Some ==> weighed(*old(compare), v@, v@[a as int]) && weighed(
            *old(compare),
            v@,
            v@[b as int],
        ),
{
    let ghost s = v@;
    proof {
        assert(s.contains(s[a as int]) && s.contains(s[b as int]));
    }
    if a < b {
        let answer = compare(&v[b], &v[a]);
        match answer {
            None => None,
            Some(less) => {
                proof {
                    assert(call_ensures(*compare, (&s[b as int], &s[a as int]), Some(less)));
                    assert(heard(*compare, s[a as int], s[b as int], less));
                    assert(heard(*compare, s[b as int], s[a as int], less));
                }
                Some(!less)
            },
        }
    } else {
        let answer = compare(&v[a], &v[b]);
        proof {
            if let Some(less) = answer {
                assert(call_ensures(*compare, (&s[a as int], &s[b as int]), Some(less)));
                assert(heard(*compare, s[a as int], s[b as int], less));
                assert(heard(*compare, s[b as int], s[a as int], less));
            }
        }
        answer
    }
}

} // verus!
