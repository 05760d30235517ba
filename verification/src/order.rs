//! The vocabulary of the contracts: what it means for a comparison to follow a
//! relation, for a relation to order a sequence, and for a sequence to be sorted.
//!
//! A comparison is an executable function that may answer differently from
//! call to call, or not at all. The contracts therefore speak of a relation
//! `lt`, a mathematical function from two values to `Some(true)` (the first is
//! less), `Some(false)` (it is not) or `None` (no answer), and of the
//! comparisons that follow it.

use vstd::prelude::*;

verus! {

/// The comparison can be called on any two members of `s`.
pub open spec fn callable_on<T, F: FnMut(&T, &T) -> Option<bool>>(compare: F, s: Seq<T>) -> bool {
    forall|a: T, b: T|
        s.contains(a) && s.contains(b) ==> #[trigger] call_requires(compare, (&a, &b))
}

/// On members of `s` the comparison can only answer as `lt` does.
pub open spec fn answers<T, F: FnMut(&T, &T) -> Option<bool>>(
    compare: F,
    lt: spec_fn(T, T) -> Option<bool>,
    s: Seq<T>,
) -> bool {
    forall|a: T, b: T, r: Option<bool>|
        s.contains(a) && s.contains(b) && #[trigger] call_ensures(compare, (&a, &b), r) ==> r
            == lt(a, b)
}

/// `lt` has an answer for any two members of `s` and is a strict weak order on
/// them: nothing is less than itself, "less" is transitive, and so is "not less".
pub open spec fn total_on<T>(lt: spec_fn(T, T) -> Option<bool>, s: Seq<T>) -> bool {
    &&& forall|a: T, b: T| s.contains(a) && s.contains(b) ==> (#[trigger] lt(a, b)) is Some
    &&& forall|a: T| s.contains(a) ==> #[trigger] lt(a, a) == Some(false)
    &&& forall|a: T, b: T, c: T|
        s.contains(a) && s.contains(b) && s.contains(c) && #[trigger] lt(a, b) == Some(true)
            && #[trigger] lt(b, c) == Some(true) ==> lt(a, c) == Some(true)
    &&& forall|a: T, b: T, c: T|
        s.contains(a) && s.contains(b) && s.contains(c) && #[trigger] lt(a, b) == Some(false)
            && #[trigger] lt(b, c) == Some(false) ==> lt(a, c) == Some(false)
}

/// The comparison follows `lt`, and `lt` orders the members of `s` totally.
pub open spec fn orders<T, F: FnMut(&T, &T) -> Option<bool>>(
    compare: F,
    lt: spec_fn(T, T) -> Option<bool>,
    s: Seq<T>,
) -> bool {
    answers(compare, lt, s) && total_on(lt, s)
}

/// The comparison can decline to answer for some two members of `s`.
pub open spec fn refused<T, F: FnMut(&T, &T) -> Option<bool>>(compare: F, s: Seq<T>) -> bool {
    exists|a: T, b: T|
        s.contains(a) && s.contains(b) && #[trigger] call_ensures(
            compare,
            (&a, &b),
            None::<bool>,
        )
}

/// The comparison can give the answer `r` about `x` and `y`, asked one way or
/// the other.
pub open spec fn heard<T, F: FnMut(&T, &T) -> Option<bool>>(compare: F, x: T, y: T, r: bool) -> bool {
    call_ensures(compare, (&x, &y), Some(r)) || call_ensures(compare, (&y, &x), Some(r))
}

/// The comparison can give an answer about `x` and some member of `s`.
pub open spec fn weighed<T, F: FnMut(&T, &T) -> Option<bool>>(compare: F, s: Seq<T>, x: T) -> bool {
    exists|y: T, r: bool| s.contains(y) && #[trigger] heard(compare, x, y, r)
}

/// `lt` has no answer for some two members of `s`.
pub open spec fn undefined_on<T>(lt: spec_fn(T, T) -> Option<bool>, s: Seq<T>) -> bool {
    exists|a: T, b: T| s.contains(a) && s.contains(b) && (#[trigger] lt(a, b)) is None
}

/// `lt` has no answer about `x` and any member of `s`, whichever is asked first.
pub open spec fn lone<T>(lt: spec_fn(T, T) -> Option<bool>, s: Seq<T>, x: T) -> bool {
    &&& forall|y: T| s.contains(y) ==> (#[trigger] lt(x, y)) is None
    &&& forall|y: T| s.contains(y) ==> (#[trigger] lt(y, x)) is None
}

/// No element of `s` is less than an earlier one.
pub open spec fn sorted_by<T>(s: Seq<T>, lt: spec_fn(T, T) -> Option<bool>) -> bool {
    forall|i: int, j: int| 0 <= i < j < s.len() ==> #[trigger] lt(s[j], s[i]) == Some(false)
}

/// The element at position `a` of `s` belongs before the one at position `b`:
/// it is less, or neither is less and it stands first.
pub open spec fn before<T>(s: Seq<T>, lt: spec_fn(T, T) -> Option<bool>, a: int, b: int) -> bool {
    lt(s[a], s[b]) == Some(true) || (a < b && lt(s[b], s[a]) == Some(false))
}

/// `order` lists positions of `s`, each within bounds, so that every listed
/// position belongs before all that follow it.
pub open spec fn stable_order<T>(
    order: Seq<int>,
    s: Seq<T>,
    lt: spec_fn(T, T) -> Option<bool>,
) -> bool {
    &&& order.len() == s.len()
    &&& forall|p: int| 0 <= p < order.len() ==> 0 <= #[trigger] order[p] < s.len()
    &&& forall|p: int, q: int|
        0 <= p < q < order.len() ==> before(s, lt, #[trigger] order[p], #[trigger] order[q])
}

/// `out` holds the elements of `s` in ascending order, those that are equal
/// under `lt` in the order in which they stood in `s`.
pub open spec fn stably_sorted<T>(
    out: Seq<T>,
    s: Seq<T>,
    lt: spec_fn(T, T) -> Option<bool>,
) -> bool {
    exists|order: Seq<int>|
        #![trigger stable_order(order, s, lt)]
        stable_order(order, s, lt) && out.len() == s.len() && forall|p: int|
            0 <= p < out.len() ==> #[trigger] out[p] == s[order[p]]
}

/// A position as an index into a sequence.
pub open spec fn pos(i: usize) -> int {
    i as int
}

/// The length of a sequence as an end of its positions.
pub open spec fn length<A>(s: Seq<A>) -> int {
    s.len() as int
}

/// A search result with its position as an index into a sequence.
pub open spec fn place(r: Option<Result<usize, usize>>) -> Option<Result<int, int>> {
    match r {
        Some(Ok(i)) => Some(Ok(i as int)),
        Some(Err(i)) => Some(Err(i as int)),
        None => None,
    }
}

/// `new` differs from `old` only between `lo` and `hi`, where it holds the same
/// elements in some order.
pub open spec fn rearranged<A>(old: Seq<A>, new: Seq<A>, lo: int, hi: int) -> bool {
    &&& new.len() == old.len()
    &&& forall|k: int| 0 <= k < lo || hi <= k < old.len() ==> #[trigger] new[k] == old[k]
    &&& new.subrange(lo, hi).to_multiset() == old.subrange(lo, hi).to_multiset()
}

/// The sequence with the elements at `a` and `b` exchanged.
pub open spec fn swapped<A>(s: Seq<A>, a: int, b: int) -> Seq<A> {
    s.update(a, s[b]).update(b, s[a])
}

/// Exchanging two elements keeps the elements.
pub proof fn lemma_swapped_multiset<A>(s: Seq<A>, a: int, b: int)
    requires
        0 <= a < s.len(),
        0 <= b < s.len(),
    ensures
        swapped(s, a, b).to_multiset() == s.to_multiset(),
{
    broadcast use vstd::multiset::group_multiset_axioms;

    let t = s.update(a, s[b]);
    vstd::seq_lib::to_multiset_update(s, a, s[b]);
    vstd::seq_lib::to_multiset_update(t, b, s[a]);
    vstd::seq_lib::to_multiset_contains(s, s[a]);
    vstd::seq_lib::to_multiset_contains(s, s[b]);
    assert(s.contains(s[a]) && s.contains(s[b]));
    if a == b {
        assert(swapped(s, a, b) =~= s);
    } else {
        assert(t[b] == s[b]);
        assert(swapped(s, a, b).to_multiset() =~= s.to_multiset());
    }
}

/// A sequence rearranged in a stretch holds, as a whole, what it held.
pub proof fn lemma_rearranged_whole<A>(old: Seq<A>, new: Seq<A>, lo: int, hi: int)
    requires
        0 <= lo <= hi <= old.len(),
        rearranged(old, new, lo, hi),
    ensures
        new.to_multiset() == old.to_multiset(),
{
    let len = old.len() as int;
    let (a0, m0, z0) = (old.subrange(0, lo), old.subrange(lo, hi), old.subrange(hi, len));
    let (a1, m1, z1) = (new.subrange(0, lo), new.subrange(lo, hi), new.subrange(hi, len));
    assert(a0 =~= a1);
    assert(z0 =~= z1);
    assert(old =~= (a0 + m0) + z0);
    assert(new =~= (a1 + m1) + z1);
    vstd::seq_lib::lemma_multiset_commutative(a0 + m0, z0);
    vstd::seq_lib::lemma_multiset_commutative(a0, m0);
    vstd::seq_lib::lemma_multiset_commutative(a1 + m1, z1);
    vstd::seq_lib::lemma_multiset_commutative(a1, m1);
}

/// Every element between `lo` and `hi` after a rearrangement was there before it.
pub proof fn lemma_rearranged_member<A>(old: Seq<A>, new: Seq<A>, lo: int, hi: int, p: int) -> (q: int)
    requires
        0 <= lo <= p < hi <= old.len(),
        rearranged(old, new, lo, hi),
    ensures
        lo <= q < hi,
        old[q] == new[p],
{
    let m0 = old.subrange(lo, hi);
    let m1 = new.subrange(lo, hi);
    assert(m1[p - lo] == new[p]);
    assert(m1.contains(new[p]));
    vstd::seq_lib::to_multiset_contains(m1, new[p]);
    vstd::seq_lib::to_multiset_contains(m0, new[p]);
    let j = choose|j: int| 0 <= j < m0.len() && m0[j] == new[p];
    lo + j
}

/// Exchanging two elements of a stretch rearranges that stretch.
pub proof fn lemma_swap_rearranged<A>(old: Seq<A>, cur: Seq<A>, lo: int, hi: int, a: int, b: int)
    requires
        0 <= lo <= hi <= old.len(),
        rearranged(old, cur, lo, hi),
        lo <= a < hi,
        lo <= b < hi,
    ensures
        rearranged(old, swapped(cur, a, b), lo, hi),
{
    let mid = cur.subrange(lo, hi);
    assert(swapped(cur, a, b).subrange(lo, hi) =~= swapped(mid, a - lo, b - lo));
    lemma_swapped_multiset(mid, a - lo, b - lo);
}

/// What was rearranged in a stretch was rearranged in any stretch around it.
pub proof fn lemma_rearranged_widen<A>(
    old: Seq<A>,
    new: Seq<A>,
    lo: int,
    hi: int,
    wide_lo: int,
    wide_hi: int,
)
    requires
        0 <= wide_lo <= lo <= hi <= wide_hi <= old.len(),
        rearranged(old, new, lo, hi),
    ensures
        rearranged(old, new, wide_lo, wide_hi),
{
    let o = old.subrange(wide_lo, wide_hi);
    let n = new.subrange(wide_lo, wide_hi);
    assert(o.len() == n.len());
    assert(rearranged(o, n, lo - wide_lo, hi - wide_lo)) by {
        assert(n.subrange(lo - wide_lo, hi - wide_lo) =~= new.subrange(lo, hi));
        assert(o.subrange(lo - wide_lo, hi - wide_lo) =~= old.subrange(lo, hi));
    }
    lemma_rearranged_whole(o, n, lo - wide_lo, hi - wide_lo);
}

/// A relation that orders a sequence has an answer wherever the comparison is
/// asked, so the comparison cannot decline.
pub proof fn lemma_orders_never_refused<T, F: FnMut(&T, &T) -> Option<bool>>(
    compare: F,
    lt: spec_fn(T, T) -> Option<bool>,
    s: Seq<T>,
)
    requires
        orders(compare, lt, s),
    ensures
        !refused(compare, s),
{
    if refused(compare, s) {
        let (a, b) = choose|a: T, b: T|
            s.contains(a) && s.contains(b) && #[trigger] call_ensures(
                compare,
                (&a, &b),
                None::<bool>,
            );
        assert(lt(a, b) is Some);
    }
}

/// Where the comparison follows `lt` and can decline, `lt` has no answer for
/// some pair.
pub proof fn lemma_refused_is_undefined<T, F: FnMut(&T, &T) -> Option<bool>>(
    compare: F,
    lt: spec_fn(T, T) -> Option<bool>,
    s: Seq<T>,
)
    requires
        answers(compare, lt, s),
        refused(compare, s),
    ensures
        undefined_on(lt, s),
{
    let (a, b) = choose|a: T, b: T|
        s.contains(a) && s.contains(b) && #[trigger] call_ensures(compare, (&a, &b), None::<bool>);
    assert(lt(a, b) is None);
}

/// An element about which the relation has no answer cannot have been weighed
/// by a comparison that follows the relation.
pub proof fn lemma_lone_never_weighed<T, F: FnMut(&T, &T) -> Option<bool>>(
    compare: F,
    lt: spec_fn(T, T) -> Option<bool>,
    s: Seq<T>,
    x: T,
)
    requires
        answers(compare, lt, s),
        s.contains(x),
        lone(lt, s, x),
    ensures
        !weighed(compare, s, x),
{
    if weighed(compare, s, x) {
        let (y, r) = choose|y: T, r: bool| s.contains(y) && #[trigger] heard(compare, x, y, r);
        if call_ensures(compare, (&x, &y), Some(r)) {
            assert(lt(x, y) == Some(r));
        } else {
            assert(call_ensures(compare, (&y, &x), Some(r)));
            assert(lt(y, x) == Some(r));
        }
    }
}

/// If every element of a rearrangement of `s` was weighed, none of them is
/// alone under a relation that the comparison follows.
pub proof fn lemma_all_weighed_none_lone<T, F: FnMut(&T, &T) -> Option<bool>>(
    compare: F,
    lt: spec_fn(T, T) -> Option<bool>,
    s: Seq<T>,
    out: Seq<T>,
    x: T,
)
    requires
        answers(compare, lt, s),
        out.to_multiset() == s.to_multiset(),
        forall|k: int| 0 <= k < out.len() ==> weighed(compare, s, #[trigger] out[k]),
        s.contains(x),
    ensures
        !lone(lt, s, x),
{
    lemma_same_members(s, out);
    assert(out.contains(x));
    let k = choose|k: int| 0 <= k < out.len() && out[k] == x;
    assert(weighed(compare, s, out[k]));
    if lone(lt, s, x) {
        lemma_lone_never_weighed(compare, lt, s, x);
    }
}

/// Two sequences with the same elements have the same members.
pub proof fn lemma_same_members<T>(s: Seq<T>, t: Seq<T>)
    requires
        s.to_multiset() == t.to_multiset(),
    ensures
        forall|x: T| s.contains(x) <==> t.contains(x),
{
    assert forall|x: T| s.contains(x) <==> t.contains(x) by {
        vstd::seq_lib::to_multiset_contains(s, x);
        vstd::seq_lib::to_multiset_contains(t, x);
    }
}

/// "Belongs before" is transitive among positions of a totally ordered sequence.
pub proof fn lemma_before_transitive<T>(
    s: Seq<T>,
    lt: spec_fn(T, T) -> Option<bool>,
    a: int,
    b: int,
    c: int,
)
    requires
        total_on(lt, s),
        0 <= a < s.len(),
        0 <= b < s.len(),
        0 <= c < s.len(),
        before(s, lt, a, b),
        before(s, lt, b, c),
    ensures
        before(s, lt, a, c),
{
    let x = s[a];
    let y = s[b];
    let z = s[c];
    assert(s.contains(x) && s.contains(y) && s.contains(z));
    assert(lt(x, y) is Some && lt(y, x) is Some && lt(y, z) is Some && lt(z, y) is Some);
    assert(lt(x, z) is Some && lt(z, x) is Some);
    assert(lt(x, x) == Some(false) && lt(y, y) == Some(false) && lt(z, z) == Some(false));
    if lt(x, y) == Some(true) && lt(y, z) == Some(true) {
        assert(lt(x, z) == Some(true));
    } else if lt(x, y) == Some(true) {
        assert(lt(z, y) == Some(false));
        if lt(x, z) == Some(false) {
            assert(lt(x, y) == Some(false));
        }
        assert(lt(x, z) == Some(true));
    } else if lt(y, z) == Some(true) {
        assert(lt(y, x) == Some(false));
        if lt(x, z) == Some(false) {
            assert(lt(y, z) == Some(false));
        }
        assert(lt(x, z) == Some(true));
    } else {
        assert(a < b < c);
        assert(lt(z, y) == Some(false) && lt(y, x) == Some(false));
        assert(lt(z, x) == Some(false));
    }
}

/// In a stable order the elements ascend.
pub proof fn lemma_stably_sorted_is_sorted<T>(
    out: Seq<T>,
    s: Seq<T>,
    lt: spec_fn(T, T) -> Option<bool>,
)
    requires
        total_on(lt, s),
        stably_sorted(out, s, lt),
    ensures
        sorted_by(out, lt),
{
    let order = choose|order: Seq<int>|
        #![trigger stable_order(order, s, lt)]
        stable_order(order, s, lt) && out.len() == s.len() && forall|p: int|
            0 <= p < out.len() ==> #[trigger] out[p] == s[order[p]];
    assert forall|i: int, j: int| 0 <= i < j < out.len() implies #[trigger] lt(out[j], out[i])
        == Some(false) by {
        let x = s[order[i]];
        let y = s[order[j]];
        assert(out[i] == x && out[j] == y);
        assert(s.contains(x) && s.contains(y));
        assert(before(s, lt, order[i], order[j]));
        assert(lt(y, x) is Some);
        assert(lt(x, x) == Some(false));
        if lt(x, y) == Some(true) && lt(y, x) == Some(true) {
            assert(lt(x, x) == Some(true));
        }
    }
}

} // verus!
