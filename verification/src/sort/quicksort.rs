//! The unstable sort: quicksort in place, by exchanges alone.
//!
//! A stretch is split around a pivot, the median of its first, middle and last
//! element; the smaller part is sorted by a call, the larger in the loop, so
//! that the depth of calls stays logarithmic. Where the pivot turns out to be
//! a least element, those equal to it are gathered beside it in one more
//! pass. Short stretches are sorted by insertion. Every change is an exchange of two elements, so at whatever
//! point the comparison declines the slice holds what it held.

use vstd::prelude::*;
use crate::order::{
    callable_on, heard, lemma_orders_never_refused, lemma_rearranged_member, lemma_rearranged_whole,
    lemma_rearranged_widen, lemma_swap_rearranged, orders, rearranged, refused, sorted_by, swapped,
    weighed,
};

verus! {

/// Stretches of at most this many elements are sorted by insertion.
pub const SMALL: usize = 20;

/// Whatever relation orders `s` by this comparison, `y` is not less than `x`.
pub open spec fn known_le<T, F: FnMut(&T, &T) -> Option<bool>>(
    compare: F,
    s: Seq<T>,
    x: T,
    y: T,
) -> bool {
    forall|lt: spec_fn(T, T) -> Option<bool>| #[trigger]
        orders(compare, lt, s) ==> lt(y, x) == Some(false)
}

/// Between `lo` and `hi` no element is known to be less than an earlier one.
pub open spec fn in_order<T, F: FnMut(&T, &T) -> Option<bool>>(
    compare: F,
    s: Seq<T>,
    cur: Seq<T>,
    lo: int,
    hi: int,
) -> bool {
    forall|i: int, j: int|
        lo <= i < j < hi ==> known_le(compare, s, #[trigger] cur[i], #[trigger] cur[j])
}

/// Every element of `cur` is a member of `s`.
pub open spec fn drawn_from<T>(cur: Seq<T>, s: Seq<T>) -> bool {
    forall|k: int| 0 <= k < cur.len() ==> s.contains(#[trigger] cur[k])
}

/// Between `lo` and `hi` the comparison has an answer about every element.
pub open spec fn each_weighed<T, F: FnMut(&T, &T) -> Option<bool>>(
    compare: F,
    s: Seq<T>,
    cur: Seq<T>,
    lo: int,
    hi: int,
) -> bool {
    forall|k: int| lo <= k < hi ==> weighed(compare, s, #[trigger] cur[k])
}

/// "Not greater" is transitive among members.
proof fn lemma_known_le_transitive<T, F: FnMut(&T, &T) -> Option<bool>>(
    compare: F,
    s: Seq<T>,
    x: T,
    y: T,
    z: T,
)
    requires
        s.contains(x),
        s.contains(y),
        s.contains(z),
        known_le(compare, s, x, y),
        known_le(compare, s, y, z),
    ensures
        known_le(compare, s, x, z),
{
    assert forall|lt: spec_fn(T, T) -> Option<bool>| #[trigger]
        orders(compare, lt, s) implies lt(z, x) == Some(false) by {
        assert(lt(z, y) == Some(false));
        assert(lt(y, x) == Some(false));
    }
}

/// What is rearranged stays drawn from the same sequence, and what was weighed
/// in the stretch stays weighed.
proof fn lemma_rearranged_keeps<T, F: FnMut(&T, &T) -> Option<bool>>(
    compare: F,
    s: Seq<T>,
    old: Seq<T>,
    new: Seq<T>,
    lo: int,
    hi: int,
)
    requires
        0 <= lo <= hi <= old.len(),
        rearranged(old, new, lo, hi),
        drawn_from(old, s),
    ensures
        drawn_from(new, s),
        each_weighed(compare, s, old, lo, hi) ==> each_weighed(compare, s, new, lo, hi),
{
    assert forall|k: int| 0 <= k < new.len() implies s.contains(#[trigger] new[k]) by {
        if lo <= k < hi {
            let q = lemma_rearranged_member(old, new, lo, hi, k);
            assert(s.contains(old[q]));
        } else {
            assert(new[k] == old[k]);
        }
    }
    if each_weighed(compare, s, old, lo, hi) {
        assert forall|k: int| lo <= k < hi implies weighed(compare, s, #[trigger] new[k]) by {
            let q = lemma_rearranged_member(old, new, lo, hi, k);
            assert(weighed(compare, s, old[q]));
        }
    }
}

/// Asks the comparison whether the element at `a` is less than the one at `b`.
fn less<T, F: FnMut(&T, &T) -> Option<bool>>(
    v: &[T],
    a: usize,
    b: usize,
    compare: &mut F,
    Ghost(s): Ghost<Seq<T>>,
) -> (r: Option<bool>)
    requires
        a < v@.len(),
        b < v@.len(),
        drawn_from(v@, s),
        callable_on(*old(compare), s),
    ensures
        *final(compare) == *old(compare),
        r is None ==> refused(*old(compare), s),
        r == Some(true) ==> known_le(*old(compare), s, v@[a as int], v@[b as int]),
        r == Some(false) ==> known_le(*old(compare), s, v@[b as int], v@[a as int]),
        r is Some ==> weighed(*old(compare), s, v@[a as int]) && weighed(
            *old(compare),
            s,
            v@[b as int],
        ),
{
    let ghost x = v@[a as int];
    let ghost y = v@[b as int];
    assert(s.contains(x) && s.contains(y));
    let r = compare(&v[a], &v[b]);
    proof {
        if let Some(answer) = r {
            assert(call_ensures(*compare, (&x, &y), Some(answer)));
            assert(heard(*compare, x, y, answer));
            assert(heard(*compare, y, x, answer));
            assert forall|lt: spec_fn(T, T) -> Option<bool>| #[trigger]
                orders(*compare, lt, s) implies (answer ==> lt(y, x) == Some(false)) && (!answer
                ==> lt(x, y) == Some(false)) by {
                assert(lt(x, y) == Some(answer));
                assert(lt(y, x) is Some);
                assert(lt(x, x) == Some(false));
                if answer && lt(y, x) == Some(true) {
                    assert(lt(x, x) == Some(true));
                }
            }
        }
    }
    r
}

/// Sorts the stretch from `lo` to `hi` by insertion: each element in turn is
/// placed among those before it, at the place that bisection finds, by moving
/// it down one exchange at a time.
pub(crate) fn insertion_sort<T, F: FnMut(&T, &T) -> Option<bool>>(
    v: &mut [T],
    lo: usize,
    hi: usize,
    compare: &mut F,
    Ghost(s): Ghost<Seq<T>>,
) -> (r: Option<()>)
    requires
        lo <= hi <= old(v)@.len(),
        drawn_from(old(v)@, s),
        callable_on(*old(compare), s),
    ensures
        *final(compare) == *old(compare),
        rearranged(old(v)@, final(v)@, lo as int, hi as int),
        r is None ==> refused(*old(compare), s),
        hi < lo + 2 ==> r is Some,
        r is Some ==> in_order(*old(compare), s, final(v)@, lo as int, hi as int),
        r is Some && lo + 2 <= hi ==> each_weighed(
            *old(compare),
            s,
            final(v)@,
            lo as int,
            hi as int,
        ),
{
    let ghost orig = v@;
    if hi - lo < 2 {
        return Some(());
    }
    let mut i: usize = lo + 1;
    while i < hi
        invariant
            lo < i <= hi <= orig.len(),
            orig == old(v)@,
            v@.len() == orig.len(),
            *compare == *old(compare),
            callable_on(*compare, s),
            drawn_from(v@, s),
            drawn_from(orig, s),
            rearranged(orig, v@, lo as int, hi as int),
            in_order(*compare, s, v@, lo as int, i as int),
            lo + 2 <= i ==> each_weighed(*compare, s, v@, lo as int, i as int),
        decreases hi - i,
    {
        let ghost cur = v@;
        let mut left: usize = lo;
        let mut right: usize = i;
        while left < right
            invariant
                lo <= left <= right <= i < hi <= cur.len(),
                v@ == cur,
                orig == old(v)@,
                *compare == *old(compare),
                callable_on(*compare, s),
                drawn_from(cur, s),
                rearranged(orig, cur, lo as int, hi as int),
                in_order(*compare, s, cur, lo as int, i as int),
                forall|k: int| lo <= k < left ==> known_le(*compare, s, #[trigger] cur[k], cur[i as int]),
                forall|k: int|
                    right <= k < i ==> known_le(*compare, s, cur[i as int], #[trigger] cur[k]),
                lo < left || right < i ==> weighed(*compare, s, cur[i as int]),
                i == lo + 1 && (lo < left || right < i) ==> weighed(*compare, s, cur[lo as int]),
            decreases right - left,
        {
            let mid = left + (right - left) / 2;
            match less(v, i, mid, compare, Ghost(s)) {
                None => {
                    return None;
                },
                Some(true) => {
                    proof {
                        assert forall|k: int| mid <= k < i implies known_le(
                            *compare,
                            s,
                            cur[i as int],
                            #[trigger] cur[k],
                        ) by {
                            if k > mid {
                                lemma_known_le_transitive(
                                    *compare,
                                    s,
                                    cur[i as int],
                                    cur[mid as int],
                                    cur[k],
                                );
                            }
                        }
                    }
                    right = mid;
                },
                Some(false) => {
                    proof {
                        assert forall|k: int| lo <= k < mid + 1 implies known_le(
                            *compare,
                            s,
                            #[trigger] cur[k],
                            cur[i as int],
                        ) by {
                            if k < mid {
                                lemma_known_le_transitive(
                                    *compare,
                                    s,
                                    cur[k],
                                    cur[mid as int],
                                    cur[i as int],
                                );
                            }
                        }
                    }
                    left = mid + 1;
                },
            }
        }
        let mut k: usize = i;
        while k > left
            invariant
                lo <= left <= k <= i < hi <= cur.len(),
                v@.len() == cur.len(),
                orig.len() == cur.len(),
                drawn_from(orig, s),
                rearranged(orig, v@, lo as int, hi as int),
                v@[k as int] == cur[i as int],
                forall|j: int| 0 <= j < k || i < j < cur.len() ==> v@[j] == cur[j],
                forall|j: int| k < j <= i ==> v@[j] == cur[j - 1],
            decreases k,
        {
            let ghost held = v@;
            v.swap(k, k - 1);
            proof {
                assert(v@ == swapped(held, k as int, k - 1));
                lemma_swap_rearranged(orig, held, lo as int, hi as int, k as int, k - 1);
            }
            k = k - 1;
        }
        proof {
            lemma_rearranged_keeps(*compare, s, orig, v@, lo as int, hi as int);
            assert forall|p: int, q: int| lo <= p < q < i + 1 implies known_le(
                *compare,
                s,
                #[trigger] v@[p],
                #[trigger] v@[q],
            ) by {
                if q < left {
                    assert(v@[p] == cur[p] && v@[q] == cur[q]);
                } else if q == left {
                    assert(v@[p] == cur[p]);
                } else if p < left {
                    assert(v@[p] == cur[p] && v@[q] == cur[q - 1]);
                } else if p == left {
                    assert(v@[q] == cur[q - 1]);
                } else {
                    assert(v@[p] == cur[p - 1] && v@[q] == cur[q - 1]);
                }
            }
            assert forall|p: int| lo <= p < i + 1 implies weighed(*compare, s, #[trigger] v@[p]) by {
                if p < left {
                    assert(v@[p] == cur[p]);
                } else if p > left {
                    assert(v@[p] == cur[p - 1]);
                }
            }
        }
        i = i + 1;
    }
    Some(())
}

/// The element at `m` is not less than the one at `x` and not greater than the
/// one at `y`.
pub open spec fn between<T, F: FnMut(&T, &T) -> Option<bool>>(
    compare: F,
    s: Seq<T>,
    cur: Seq<T>,
    x: int,
    m: int,
    y: int,
) -> bool {
    known_le(compare, s, cur[x], cur[m]) && known_le(compare, s, cur[m], cur[y])
}

/// Picks the pivot of a stretch: the position, among the first, the middle and
/// the last, whose element lies between the other two.
fn pick_pivot<T, F: FnMut(&T, &T) -> Option<bool>>(
    v: &[T],
    lo: usize,
    hi: usize,
    compare: &mut F,
    Ghost(s): Ghost<Seq<T>>,
) -> (r: Option<usize>)
    requires
        lo + 3 <= hi <= v@.len(),
        drawn_from(v@, s),
        callable_on(*old(compare), s),
    ensures
        *final(compare) == *old(compare),
        r is None ==> refused(*old(compare), s),
        r matches Some(m) ==> {
            let a = lo as int;
            let b = lo + (hi - lo) / 2;
            let c = hi - 1;
            &&& (m == a || m == b || m == c)
            &&& m == a ==> between(*old(compare), s, v@, b, a, c) || between(
                *old(compare),
                s,
                v@,
                c,
                a,
                b,
            )
            &&& m == b ==> between(*old(compare), s, v@, a, b, c) || between(
                *old(compare),
                s,
                v@,
                c,
                b,
                a,
            )
            &&& m == c ==> between(*old(compare), s, v@, a, c, b) || between(
                *old(compare),
                s,
                v@,
                b,
                c,
                a,
            )
        },
{
    let a = lo;
    let b = lo + (hi - lo) / 2;
    let c = hi - 1;
    let ab = match less(v, a, b, compare, Ghost(s)) {
        None => {
            return None;
        },
        Some(x) => x,
    };
    let bc = match less(v, b, c, compare, Ghost(s)) {
        None => {
            return None;
        },
        Some(x) => x,
    };
    if ab == bc {
        // a, b, c ascend or descend: b is in the middle
        proof {
            if ab {
                assert(known_le(*compare, s, v@[a as int], v@[b as int]) && known_le(
                    *compare,
                    s,
                    v@[b as int],
                    v@[c as int],
                ));
            } else {
                assert(known_le(*compare, s, v@[c as int], v@[b as int]) && known_le(
                    *compare,
                    s,
                    v@[b as int],
                    v@[a as int],
                ));
            }
        }
        return Some(b);
    }
    let ac = match less(v, a, c, compare, Ghost(s)) {
        None => {
            return None;
        },
        Some(x) => x,
    };
    if ab == ac {
        // b is the least or the greatest, and c lies between a and b
        proof {
            if ab {
                assert(known_le(*compare, s, v@[a as int], v@[c as int]) && known_le(
                    *compare,
                    s,
                    v@[c as int],
                    v@[b as int],
                ));
            } else {
                assert(known_le(*compare, s, v@[b as int], v@[c as int]) && known_le(
                    *compare,
                    s,
                    v@[c as int],
                    v@[a as int],
                ));
            }
        }
        Some(c)
    } else {
        proof {
            if ab {
                assert(known_le(*compare, s, v@[c as int], v@[a as int]) && known_le(
                    *compare,
                    s,
                    v@[a as int],
                    v@[b as int],
                ));
            } else {
                assert(known_le(*compare, s, v@[b as int], v@[a as int]) && known_le(
                    *compare,
                    s,
                    v@[a as int],
                    v@[c as int],
                ));
            }
        }
        Some(a)
    }
}

/// Splits the stretch from `lo` to `hi` around a pivot and returns where the
/// pivot has come to stand: no element before it is greater, none after it is
/// less.
pub(crate) fn partition<T, F: FnMut(&T, &T) -> Option<bool>>(
    v: &mut [T],
    lo: usize,
    hi: usize,
    compare: &mut F,
    Ghost(s): Ghost<Seq<T>>,
) -> (r: Option<usize>)
    requires
        lo + 3 <= hi <= old(v)@.len(),
        drawn_from(old(v)@, s),
        callable_on(*old(compare), s),
    ensures
        *final(compare) == *old(compare),
        rearranged(old(v)@, final(v)@, lo as int, hi as int),
        r is None ==> refused(*old(compare), s),
        r matches Some(p) ==> {
            &&& lo <= p < hi
            &&& forall|k: int|
                lo <= k < p ==> known_le(*old(compare), s, #[trigger] final(v)@[k], final(v)@[p as int])
            &&& forall|k: int|
                p < k < hi ==> known_le(*old(compare), s, final(v)@[p as int], #[trigger] final(v)@[k])
            &&& each_weighed(*old(compare), s, final(v)@, lo as int, hi as int)
        },
{
    let ghost orig = v@;
    assert(rearranged(orig, orig, lo as int, hi as int));
    let m = match pick_pivot(v, lo, hi, compare, Ghost(s)) {
        None => {
            return None;
        },
        Some(m) => m,
    };
    v.swap(lo, m);
    proof {
        lemma_swap_rearranged(orig, orig, lo as int, hi as int, lo as int, m as int);
        lemma_rearranged_keeps(*compare, s, orig, v@, lo as int, hi as int);
    }
    let ghost pivot = v@[lo as int];
    let mut i: usize = lo + 1;
    let mut j: usize = lo + 1;
    while j < hi
        invariant
            lo < i <= j <= hi <= orig.len(),
            orig == old(v)@,
            v@.len() == orig.len(),
            *compare == *old(compare),
            callable_on(*compare, s),
            drawn_from(orig, s),
            drawn_from(v@, s),
            rearranged(orig, v@, lo as int, hi as int),
            v@[lo as int] == pivot,
            forall|k: int| lo < k < i ==> known_le(*compare, s, #[trigger] v@[k], pivot),
            forall|k: int| i <= k < j ==> known_le(*compare, s, pivot, #[trigger] v@[k]),
            each_weighed(*compare, s, v@, lo + 1, j as int),
            lo + 1 < j ==> weighed(*compare, s, pivot),
        decreases hi - j,
    {
        match less(v, j, lo, compare, Ghost(s)) {
            None => {
                return None;
            },
            Some(true) => {
                let ghost held = v@;
                v.swap(i, j);
                proof {
                    assert(v@ == swapped(held, i as int, j as int));
                    lemma_swap_rearranged(orig, held, lo as int, hi as int, i as int, j as int);
                    lemma_rearranged_keeps(*compare, s, orig, v@, lo as int, hi as int);
                    assert forall|k: int| lo + 1 <= k < j + 1 implies weighed(
                        *compare,
                        s,
                        #[trigger] v@[k],
                    ) by {
                        if k == i {
                            assert(v@[k] == held[j as int]);
                        } else if k == j {
                            assert(v@[k] == held[i as int]);
                        } else {
                            assert(v@[k] == held[k]);
                        }
                    }
                    assert forall|k: int| lo < k < i + 1 implies known_le(
                        *compare,
                        s,
                        #[trigger] v@[k],
                        pivot,
                    ) by {
                        if k < i {
                            assert(v@[k] == held[k]);
                        }
                    }
                    assert forall|k: int| i + 1 <= k < j + 1 implies known_le(
                        *compare,
                        s,
                        pivot,
                        #[trigger] v@[k],
                    ) by {
                        if k < j {
                            assert(v@[k] == held[k]);
                        } else {
                            assert(v@[k] == held[i as int]);
                        }
                    }
                }
                i = i + 1;
            },
            Some(false) => {},
        }
        j = j + 1;
    }
    let ghost held = v@;
    v.swap(lo, i - 1);
    proof {
        assert(v@ == swapped(held, lo as int, i - 1));
        lemma_swap_rearranged(orig, held, lo as int, hi as int, lo as int, i - 1);
        assert forall|k: int| lo <= k < i - 1 implies known_le(
            *compare,
            s,
            #[trigger] v@[k],
            v@[i - 1],
        ) by {
            if k == lo {
                assert(v@[k] == held[i - 1]);
            } else {
                assert(v@[k] == held[k]);
            }
        }
        assert forall|k: int| i - 1 < k < hi implies known_le(
            *compare,
            s,
            v@[i - 1],
            #[trigger] v@[k],
        ) by {
            assert(v@[k] == held[k]);
        }
        assert forall|k: int| lo <= k < hi implies weighed(*compare, s, #[trigger] v@[k]) by {
            if k == lo {
                assert(v@[k] == held[i - 1]);
            } else if k == i - 1 {
                assert(v@[k] == held[lo as int]);
            } else {
                assert(v@[k] == held[k]);
            }
        }
    }
    Some(i - 1)
}

/// Between `lo` and `hi` every two elements are in order, but for those that
/// both lie between `a` and `b`.
pub open spec fn settled<T, F: FnMut(&T, &T) -> Option<bool>>(
    compare: F,
    s: Seq<T>,
    cur: Seq<T>,
    lo: int,
    a: int,
    b: int,
    hi: int,
) -> bool {
    forall|i: int, j: int|
        lo <= i < j < hi && !(a <= i && j < b) ==> known_le(
            compare,
            s,
            #[trigger] cur[i],
            #[trigger] cur[j],
        )
}

/// Rearranging the open stretch does not unsettle what lies around it.
proof fn lemma_settled_kept<T, F: FnMut(&T, &T) -> Option<bool>>(
    compare: F,
    s: Seq<T>,
    old: Seq<T>,
    new: Seq<T>,
    lo: int,
    a: int,
    b: int,
    hi: int,
)
    requires
        0 <= lo <= a <= b <= hi <= old.len(),
        rearranged(old, new, a, b),
        settled(compare, s, old, lo, a, b, hi),
    ensures
        settled(compare, s, new, lo, a, b, hi),
{
    assert forall|i: int, j: int| lo <= i < j < hi && !(a <= i && j < b) implies known_le(
        compare,
        s,
        #[trigger] new[i],
        #[trigger] new[j],
    ) by {
        let i0 = if a <= i < b {
            lemma_rearranged_member(old, new, a, b, i)
        } else {
            i
        };
        let j0 = if a <= j < b {
            lemma_rearranged_member(old, new, a, b, j)
        } else {
            j
        };
        assert(old[i0] == new[i] && old[j0] == new[j]);
        assert(known_le(compare, s, old[i0], old[j0]));
    }
}

/// Once the stretch is split around the pivot at `p` and one side of it is in
/// order, only the other side is left open.
proof fn lemma_settled_narrowed<T, F: FnMut(&T, &T) -> Option<bool>>(
    compare: F,
    s: Seq<T>,
    cur: Seq<T>,
    lo: int,
    a: int,
    p: int,
    b: int,
    hi: int,
)
    requires
        0 <= lo <= a <= p < b <= hi <= cur.len(),
        drawn_from(cur, s),
        settled(compare, s, cur, lo, a, b, hi),
        forall|k: int| a <= k < p ==> known_le(compare, s, #[trigger] cur[k], cur[p]),
        forall|k: int| p < k < b ==> known_le(compare, s, cur[p], #[trigger] cur[k]),
    ensures
        in_order(compare, s, cur, a, p) ==> settled(compare, s, cur, lo, p + 1, b, hi),
        in_order(compare, s, cur, p + 1, b) ==> settled(compare, s, cur, lo, a, p, hi),
{
    if in_order(compare, s, cur, a, p) {
        assert forall|i: int, j: int| lo <= i < j < hi && !(p + 1 <= i && j < b) implies known_le(
            compare,
            s,
            #[trigger] cur[i],
            #[trigger] cur[j],
        ) by {
            if a <= i && j < b {
                if j > p && i < p {
                    lemma_known_le_transitive(compare, s, cur[i], cur[p], cur[j]);
                }
            }
        }
    }
    if in_order(compare, s, cur, p + 1, b) {
        assert forall|i: int, j: int| lo <= i < j < hi && !(a <= i && j < p) implies known_le(
            compare,
            s,
            #[trigger] cur[i],
            #[trigger] cur[j],
        ) by {
            if a <= i && j < b {
                if j > p && i < p {
                    lemma_known_le_transitive(compare, s, cur[i], cur[p], cur[j]);
                }
            }
        }
    }
}

/// What bounded a stretch from one side still bounds it after it is rearranged.
proof fn lemma_bounds_kept<T, F: FnMut(&T, &T) -> Option<bool>>(
    compare: F,
    s: Seq<T>,
    old: Seq<T>,
    new: Seq<T>,
    x: int,
    y: int,
    pivot: T,
)
    requires
        0 <= x <= y <= old.len(),
        rearranged(old, new, x, y),
    ensures
        (forall|k: int| x <= k < y ==> known_le(compare, s, #[trigger] old[k], pivot)) ==> (forall|
            k: int,
        |
            x <= k < y ==> known_le(compare, s, #[trigger] new[k], pivot)),
        (forall|k: int| x <= k < y ==> known_le(compare, s, pivot, #[trigger] old[k])) ==> (forall|
            k: int,
        |
            x <= k < y ==> known_le(compare, s, pivot, #[trigger] new[k])),
{
    if forall|k: int| x <= k < y ==> known_le(compare, s, #[trigger] old[k], pivot) {
        assert forall|k: int| x <= k < y implies known_le(compare, s, #[trigger] new[k], pivot) by {
            let q = lemma_rearranged_member(old, new, x, y, k);
            assert(known_le(compare, s, old[q], pivot));
        }
    }
    if forall|k: int| x <= k < y ==> known_le(compare, s, pivot, #[trigger] old[k]) {
        assert forall|k: int| x <= k < y implies known_le(compare, s, pivot, #[trigger] new[k]) by {
            let q = lemma_rearranged_member(old, new, x, y, k);
            assert(known_le(compare, s, pivot, old[q]));
        }
    }
}

/// Gathers behind the element at `lo`, which no element of the stretch is
/// less than, the elements that it is not less than either, and returns where
/// the others begin. A stretch of many equal elements is dealt with in one
/// pass in this way.
pub(crate) fn gather_equal<T, F: FnMut(&T, &T) -> Option<bool>>(
    v: &mut [T],
    lo: usize,
    hi: usize,
    compare: &mut F,
    Ghost(s): Ghost<Seq<T>>,
) -> (r: Option<usize>)
    requires
        lo < hi <= old(v)@.len(),
        drawn_from(old(v)@, s),
        callable_on(*old(compare), s),
        forall|k: int|
            lo < k < hi ==> known_le(*old(compare), s, old(v)@[lo as int], #[trigger] old(v)@[k]),
    ensures
        *final(compare) == *old(compare),
        rearranged(old(v)@, final(v)@, lo as int, hi as int),
        r is None ==> refused(*old(compare), s),
        r matches Some(q) ==> {
            &&& lo < q <= hi
            &&& forall|k: int|
                lo <= k < q ==> known_le(
                    *old(compare),
                    s,
                    #[trigger] final(v)@[k],
                    final(v)@[lo as int],
                )
            &&& forall|k: int|
                lo <= k < hi ==> known_le(
                    *old(compare),
                    s,
                    final(v)@[lo as int],
                    #[trigger] final(v)@[k],
                )
        },
{
    let ghost orig = v@;
    let ghost pivot = v@[lo as int];
    assert(rearranged(orig, orig, lo as int, hi as int));
    let mut i: usize = lo + 1;
    let mut j: usize = lo + 1;
    while j < hi
        invariant
            lo < i <= j <= hi <= orig.len(),
            orig == old(v)@,
            v@.len() == orig.len(),
            *compare == *old(compare),
            callable_on(*compare, s),
            drawn_from(orig, s),
            drawn_from(v@, s),
            rearranged(orig, v@, lo as int, hi as int),
            v@[lo as int] == pivot,
            forall|k: int| lo < k < hi ==> known_le(*compare, s, pivot, #[trigger] v@[k]),
            forall|k: int| lo < k < i ==> known_le(*compare, s, #[trigger] v@[k], pivot),
        decreases hi - j,
    {
        match less(v, lo, j, compare, Ghost(s)) {
            None => {
                return None;
            },
            Some(false) => {
                let ghost held = v@;
                v.swap(i, j);
                proof {
                    assert(v@ == swapped(held, i as int, j as int));
                    lemma_swap_rearranged(orig, held, lo as int, hi as int, i as int, j as int);
                    lemma_rearranged_keeps(*compare, s, orig, v@, lo as int, hi as int);
                    assert forall|k: int| lo < k < hi implies known_le(
                        *compare,
                        s,
                        pivot,
                        #[trigger] v@[k],
                    ) by {
                        if k == i {
                            assert(v@[k] == held[j as int]);
                        } else if k == j {
                            assert(v@[k] == held[i as int]);
                        } else {
                            assert(v@[k] == held[k]);
                        }
                    }
                    assert forall|k: int| lo < k < i + 1 implies known_le(
                        *compare,
                        s,
                        #[trigger] v@[k],
                        pivot,
                    ) by {
                        if k < i {
                            assert(v@[k] == held[k]);
                        }
                    }
                }
                i = i + 1;
            },
            Some(true) => {},
        }
        j = j + 1;
    }
    proof {
        assert(s.contains(pivot));
        assert forall|k: int| lo <= k < i implies known_le(
            *compare,
            s,
            #[trigger] v@[k],
            v@[lo as int],
        ) by {
            if k == lo {
                lemma_known_le_reflexive(*compare, s, pivot);
            }
        }
        assert forall|k: int| lo <= k < hi implies known_le(
            *compare,
            s,
            v@[lo as int],
            #[trigger] v@[k],
        ) by {
            if k == lo {
                lemma_known_le_reflexive(*compare, s, pivot);
            }
        }
    }
    Some(i)
}

/// No member is known to be less than itself.
proof fn lemma_known_le_reflexive<T, F: FnMut(&T, &T) -> Option<bool>>(compare: F, s: Seq<T>, x: T)
    requires
        s.contains(x),
    ensures
        known_le(compare, s, x, x),
{
    assert forall|lt: spec_fn(T, T) -> Option<bool>| #[trigger]
        orders(compare, lt, s) implies lt(x, x) == Some(false) by {}
}

/// Once the least elements of the open stretch stand at its start, only what
/// follows them is left open.
proof fn lemma_settled_gathered<T, F: FnMut(&T, &T) -> Option<bool>>(
    compare: F,
    s: Seq<T>,
    cur: Seq<T>,
    lo: int,
    a: int,
    q: int,
    b: int,
    hi: int,
)
    requires
        0 <= lo <= a < q <= b <= hi <= cur.len(),
        drawn_from(cur, s),
        settled(compare, s, cur, lo, a, b, hi),
        forall|k: int| a <= k < q ==> known_le(compare, s, #[trigger] cur[k], cur[a]),
        forall|k: int| a <= k < b ==> known_le(compare, s, cur[a], #[trigger] cur[k]),
    ensures
        settled(compare, s, cur, lo, q, b, hi),
{
    assert forall|i: int, j: int| lo <= i < j < hi && !(q <= i && j < b) implies known_le(
        compare,
        s,
        #[trigger] cur[i],
        #[trigger] cur[j],
    ) by {
        if a <= i && j < b {
            lemma_known_le_transitive(compare, s, cur[i], cur[a], cur[j]);
        }
    }
}

/// Sorts the stretch from `lo` to `hi`.
pub(crate) fn sort_range<T, F: FnMut(&T, &T) -> Option<bool>>(
    v: &mut [T],
    lo: usize,
    hi: usize,
    compare: &mut F,
    Ghost(s): Ghost<Seq<T>>,
) -> (r: Option<()>)
    requires
        lo <= hi <= old(v)@.len(),
        drawn_from(old(v)@, s),
        callable_on(*old(compare), s),
    ensures
        *final(compare) == *old(compare),
        rearranged(old(v)@, final(v)@, lo as int, hi as int),
        r is None ==> refused(*old(compare), s),
        hi < lo + 2 ==> r is Some,
        r is Some ==> in_order(*old(compare), s, final(v)@, lo as int, hi as int),
        r is Some && lo + 2 <= hi ==> each_weighed(
            *old(compare),
            s,
            final(v)@,
            lo as int,
            hi as int,
        ),
    decreases hi - lo,
{
    let ghost orig = v@;
    let mut a: usize = lo;
    let mut b: usize = hi;
    assert(rearranged(orig, orig, lo as int, hi as int));
    while b - a > SMALL
        invariant
            lo <= a <= b <= hi <= orig.len(),
            orig == old(v)@,
            v@.len() == orig.len(),
            *compare == *old(compare),
            callable_on(*compare, s),
            drawn_from(orig, s),
            drawn_from(v@, s),
            rearranged(orig, v@, lo as int, hi as int),
            settled(*compare, s, v@, lo as int, a as int, b as int, hi as int),
            lo < a || b < hi ==> each_weighed(*compare, s, v@, lo as int, hi as int),
        decreases b - a,
    {
        let ghost entered = v@;
        let p = match partition(v, a, b, compare, Ghost(s)) {
            None => {
                proof {
                    lemma_rearranged_widen(entered, v@, a as int, b as int, lo as int, hi as int);
                }
                return None;
            },
            Some(p) => p,
        };
        let ghost split = v@;
        let ghost pivot = split[p as int];
        proof {
            lemma_rearranged_keeps(*compare, s, entered, split, a as int, b as int);
        }
        if p == a {
            let gathered = gather_equal(v, a, b, compare, Ghost(s));
            proof {
                lemma_rearranged_widen(entered, v@, a as int, b as int, lo as int, hi as int);
            }
            let q = match gathered {
                None => {
                    return None;
                },
                Some(q) => q,
            };
            proof {
                lemma_rearranged_keeps(*compare, s, entered, v@, a as int, b as int);
                lemma_settled_kept(*compare, s, entered, v@, lo as int, a as int, b as int, hi as int);
                lemma_settled_gathered(
                    *compare,
                    s,
                    v@,
                    lo as int,
                    a as int,
                    q as int,
                    b as int,
                    hi as int,
                );
                lemma_rearranged_keeps(*compare, s, split, v@, a as int, b as int);
                lemma_weighed_around(*compare, s, entered, v@, lo as int, a as int, b as int, hi as int);
            }
            a = q;
        } else if p - a < b - (p + 1) {
            let sorted = sort_range(v, a, p, compare, Ghost(s));
            proof {
                lemma_rearranged_widen(split, v@, a as int, p as int, a as int, b as int);
                lemma_rearranged_widen(entered, v@, a as int, b as int, lo as int, hi as int);
            }
            if sorted.is_none() {
                return None;
            }
            proof {
                lemma_rearranged_keeps(*compare, s, entered, v@, a as int, b as int);
                lemma_settled_kept(*compare, s, entered, v@, lo as int, a as int, b as int, hi as int);
                lemma_bounds_kept(*compare, s, split, v@, a as int, p as int, pivot);
                assert(forall|k: int| p <= k < b ==> v@[k] == split[k]);
                lemma_settled_narrowed(
                    *compare,
                    s,
                    v@,
                    lo as int,
                    a as int,
                    p as int,
                    b as int,
                    hi as int,
                );
                lemma_rearranged_keeps(*compare, s, split, v@, a as int, b as int);
                lemma_weighed_around(*compare, s, entered, v@, lo as int, a as int, b as int, hi as int);
            }
            a = p + 1;
        } else {
            let sorted = sort_range(v, p + 1, b, compare, Ghost(s));
            proof {
                lemma_rearranged_widen(split, v@, p + 1, b as int, a as int, b as int);
                lemma_rearranged_widen(entered, v@, a as int, b as int, lo as int, hi as int);
            }
            if sorted.is_none() {
                return None;
            }
            proof {
                lemma_rearranged_keeps(*compare, s, entered, v@, a as int, b as int);
                lemma_settled_kept(*compare, s, entered, v@, lo as int, a as int, b as int, hi as int);
                lemma_bounds_kept(*compare, s, split, v@, p + 1, b as int, pivot);
                assert(forall|k: int| a <= k <= p ==> v@[k] == split[k]);
                lemma_settled_narrowed(
                    *compare,
                    s,
                    v@,
                    lo as int,
                    a as int,
                    p as int,
                    b as int,
                    hi as int,
                );
                lemma_rearranged_keeps(*compare, s, split, v@, a as int, b as int);
                lemma_weighed_around(*compare, s, entered, v@, lo as int, a as int, b as int, hi as int);
            }
            b = p;
        }
    }
    let ghost entered = v@;
    let sorted = insertion_sort(v, a, b, compare, Ghost(s));
    proof {
        lemma_rearranged_widen(entered, v@, a as int, b as int, lo as int, hi as int);
    }
    if sorted.is_none() {
        return None;
    }
    proof {
        lemma_settled_kept(*compare, s, entered, v@, lo as int, a as int, b as int, hi as int);
        if lo < a || b < hi {
            lemma_weighed_around(*compare, s, entered, v@, lo as int, a as int, b as int, hi as int);
        }
    }
    Some(())
}

/// If the open stretch was rearranged and all of it is weighed, what was
/// weighed around it still is.
proof fn lemma_weighed_around<T, F: FnMut(&T, &T) -> Option<bool>>(
    compare: F,
    s: Seq<T>,
    old: Seq<T>,
    new: Seq<T>,
    lo: int,
    a: int,
    b: int,
    hi: int,
)
    requires
        0 <= lo <= a <= b <= hi <= old.len(),
        rearranged(old, new, a, b),
        each_weighed(compare, s, new, a, b) || each_weighed(compare, s, old, a, b),
        each_weighed(compare, s, old, lo, hi) || (lo == a && b == hi),
    ensures
        each_weighed(compare, s, new, lo, hi),
{
    assert forall|k: int| lo <= k < hi implies weighed(compare, s, #[trigger] new[k]) by {
        if a <= k < b {
            if !each_weighed(compare, s, new, a, b) {
                let q = lemma_rearranged_member(old, new, a, b, k);
                assert(weighed(compare, s, old[q]));
            }
        } else {
            assert(new[k] == old[k]);
        }
    }
}

/// Sorts `v` in place by a comparison that may decline, without keeping the
/// order of elements that are equal.
///
/// The elements are never lost or doubled, also when the comparison declines.
pub fn quicksort<T, F: FnMut(&T, &T) -> Option<bool>>(v: &mut [T], compare: F) -> (r: Option<()>)
    requires
        callable_on(compare, old(v)@),
    ensures
        final(v)@.len() == old(v)@.len(),
        final(v)@.to_multiset() == old(v)@.to_multiset(),
        old(v)@.len() < 2 ==> r is Some,
        r is None ==> refused(compare, old(v)@),
        forall|lt: spec_fn(T, T) -> Option<bool>| #[trigger]
            orders(compare, lt, old(v)@) ==> r is Some && sorted_by(final(v)@, lt),
        r is Some && old(v)@.len() >= 2 ==> forall|k: int|
            0 <= k < old(v)@.len() ==> weighed(compare, old(v)@, #[trigger] final(v)@[k]),
{
    let mut compare = compare;
    let ghost s = v@;
    let len = v.len();
    let r = sort_range(v, 0, len, &mut compare, Ghost(s));
    proof {
        lemma_rearranged_whole(s, v@, 0, len as int);
        assert forall|lt: spec_fn(T, T) -> Option<bool>| #[trigger]
            orders(compare, lt, s) implies r is Some && sorted_by(v@, lt) by {
            lemma_orders_never_refused(compare, lt, s);
            assert forall|i: int, j: int| 0 <= i < j < v@.len() implies #[trigger] lt(v@[j], v@[i])
                == Some(false) by {
                assert(known_le(compare, s, v@[i], v@[j]));
            }
        }
    }
    r
}

} // verus!
