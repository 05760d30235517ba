//! The stable sort: an adaptive merge sort over a list of positions.
//!
//! Runs that are already in order are found from the right end, short ones are
//! extended by insertion, and a stack of runs is merged pairwise, always
//! through a buffer that holds the shorter of the two.

use vstd::prelude::*;
use vstd::multiset::Multiset;
use crate::order::{
    before, callable_on, lemma_orders_never_refused, lemma_rearranged_member,
    lemma_stably_sorted_is_sorted, orders, rearranged, refused, sorted_by, stable_order,
    stably_sorted, weighed,
};
use crate::sort::arrange::arrange;
use crate::sort::rank::{
    all_weighed, arrangement, ascending, lemma_placed_transitive, lemma_rearranged_arrangement,
    placed, precedes,
};

verus! {

/// Reverses the entries between `lo` and `hi`.
pub(crate) fn reverse_range(idx: &mut Vec<usize>, lo: usize, hi: usize)
    requires
        lo <= hi <= old(idx)@.len(),
    ensures
        final(idx)@.len() == old(idx)@.len(),
        forall|k: int| 0 <= k < lo || hi <= k < old(idx)@.len() ==> final(idx)@[k] == old(idx)@[k],
        forall|k: int| lo <= k < hi ==> final(idx)@[k] == old(idx)@[lo + hi - 1 - k],
        rearranged(old(idx)@, final(idx)@, lo as int, hi as int),
{
    let mut i: usize = lo;
    let mut j: usize = hi;
    while j - i >= 2
        invariant
            lo <= i <= j <= hi <= idx@.len(),
            i - lo == hi - j,
            idx@.len() == old(idx)@.len(),
            forall|k: int| 0 <= k < lo || hi <= k < idx@.len() ==> idx@[k] == old(idx)@[k],
            forall|k: int| i <= k < j ==> idx@[k] == old(idx)@[k],
            forall|k: int| lo <= k < i || j <= k < hi ==> idx@[k] == old(idx)@[lo + hi - 1 - k],
        decreases j - i,
    {
        j = j - 1;
        let left = idx[i];
        let right = idx[j];
        idx[i] = right;
        idx[j] = left;
        i = i + 1;
    }
    proof {
        let before = old(idx)@.subrange(lo as int, hi as int);
        let after = idx@.subrange(lo as int, hi as int);
        assert(after =~= before.reverse());
        before.lemma_reverse_to_multiset();
    }
}

/// Moving the first entry of a sequence to another place keeps its entries.
proof fn lemma_moved_first(s: Seq<usize>, t: Seq<usize>, m: int)
    requires
        0 <= m < s.len(),
        t.len() == s.len(),
        forall|k: int| 0 <= k < m ==> t[k] == s[k + 1],
        t[m] == s[0],
        forall|k: int| m < k < s.len() ==> t[k] == s[k],
    ensures
        t.to_multiset() == s.to_multiset(),
{
    let rest = s.remove(0);
    assert(t =~= rest.insert(m, s[0]));
    vstd::seq_lib::to_multiset_remove(s, 0);
    vstd::seq_lib::to_multiset_insert(rest, m, s[0]);
    vstd::seq_lib::to_multiset_contains(s, s[0]);
    assert(s.contains(s[0]));
    assert(s.to_multiset().remove(s[0]).insert(s[0]) =~= s.to_multiset());
}

/// Inserts the entry at `lo` into the ascending run that follows it up to `hi`,
/// finding its place by bisection and shifting what belongs before it down by
/// one. Nothing is moved until the place is known, so a comparison that
/// declines leaves the list as it was.
pub(crate) fn insert_head<T, F: FnMut(&T, &T) -> Option<bool>>(
    v: &[T],
    idx: &mut Vec<usize>,
    lo: usize,
    hi: usize,
    compare: &mut F,
) -> (r: Option<()>)
    requires
        lo < hi <= old(idx)@.len(),
        arrangement(old(idx)@, v@.len()),
        callable_on(*old(compare), v@),
        ascending(*old(compare), v@, old(idx)@, lo + 1, hi as int),
    ensures
        *final(compare) == *old(compare),
        rearranged(old(idx)@, final(idx)@, lo as int, hi as int),
        r is None ==> refused(*old(compare), v@) && final(idx)@ == old(idx)@,
        r is Some ==> ascending(*old(compare), v@, final(idx)@, lo as int, hi as int),
        r is Some && (hi == lo + 2 || (lo + 2 < hi && all_weighed(
            *old(compare),
            v@,
            old(idx)@,
            lo + 1,
            hi as int,
        ))) ==> all_weighed(*old(compare), v@, final(idx)@, lo as int, hi as int),
{
    let ghost s = v@;
    let ghost start = idx@;
    let head = idx[lo];
    let mut left: usize = lo + 1;
    let mut right: usize = hi;
    while left < right
        invariant
            lo < left <= right <= hi <= idx@.len(),
            idx@ == start,
            start == old(idx)@,
            s == v@,
            head == start[lo as int],
            *compare == *old(compare),
            arrangement(start, s.len()),
            callable_on(*compare, s),
            ascending(*compare, s, start, lo + 1, hi as int),
            forall|k: int| lo < k < left ==> placed(*compare, s, #[trigger] start[k] as int, head as int),
            forall|k: int| right <= k < hi ==> placed(*compare, s, head as int, #[trigger] start[k] as int),
            lo + 1 < left || right < hi ==> weighed(*compare, s, s[head as int]),
            hi == lo + 2 && (lo + 1 < left || right < hi) ==> weighed(
                *compare,
                s,
                s[start[lo + 1] as int],
            ),
        decreases right - left,
    {
        let mid = left + (right - left) / 2;
        let probe = idx[mid];
        match precedes(v, probe, head, compare) {
            None => {
                return None;
            },
            Some(true) => {
                proof {
                    assert forall|k: int| lo < k < mid + 1 implies placed(
                        *compare,
                        s,
                        #[trigger] start[k] as int,
                        head as int,
                    ) by {
                        if k < mid {
                            lemma_placed_transitive(
                                *compare,
                                s,
                                start[k] as int,
                                probe as int,
                                head as int,
                            );
                        }
                    }
                }
                left = mid + 1;
            },
            Some(false) => {
                proof {
                    assert forall|k: int| mid <= k < hi implies placed(
                        *compare,
                        s,
                        head as int,
                        #[trigger] start[k] as int,
                    ) by {
                        if k > mid {
                            lemma_placed_transitive(
                                *compare,
                                s,
                                head as int,
                                probe as int,
                                start[k] as int,
                            );
                        }
                    }
                }
                right = mid;
            },
        }
    }
    let mut k: usize = lo;
    while k + 1 < left
        invariant
            lo <= k < left <= hi <= idx@.len(),
            idx@.len() == start.len(),
            forall|j: int| 0 <= j < lo || k < j < idx@.len() ==> idx@[j] == start[j],
            forall|j: int| lo <= j < k ==> idx@[j] == start[j + 1],
        decreases left - k,
    {
        let next = idx[k + 1];
        idx[k] = next;
        k = k + 1;
    }
    idx[k] = head;
    proof {
        let before = start.subrange(lo as int, hi as int);
        let after = idx@.subrange(lo as int, hi as int);
        lemma_moved_first(before, after, left - 1 - lo);
        assert forall|p: int, q: int| lo <= p < q < hi implies placed(
            *compare,
            s,
            #[trigger] idx@[p] as int,
            #[trigger] idx@[q] as int,
        ) by {
            if q < left - 1 {
                assert(idx@[p] == start[p + 1] && idx@[q] == start[q + 1]);
            } else if q == left - 1 {
                assert(idx@[p] == start[p + 1]);
            } else if p < left - 1 {
                assert(idx@[p] == start[p + 1] && idx@[q] == start[q]);
            } else if p == left - 1 {
                assert(idx@[q] == start[q]);
            } else {
                assert(idx@[p] == start[p] && idx@[q] == start[q]);
            }
        }
        if hi == lo + 2 || (lo + 2 < hi && all_weighed(*compare, s, start, lo + 1, hi as int)) {
            assert forall|p: int| lo <= p < hi implies weighed(
                *compare,
                s,
                s[#[trigger] idx@[p] as int],
            ) by {
                if p < left - 1 {
                    assert(idx@[p] == start[p + 1]);
                } else if p > left - 1 {
                    assert(idx@[p] == start[p]);
                }
            }
        }
    }
    Some(())
}

/// Finds the run that ends at `end`: the longest stretch to its left that
/// ascends, or that descends strictly, in which case it is reversed. Returns
/// where the run starts.
pub(crate) fn next_run<T, F: FnMut(&T, &T) -> Option<bool>>(
    v: &[T],
    idx: &mut Vec<usize>,
    end: usize,
    compare: &mut F,
) -> (r: Option<usize>)
    requires
        0 < end <= old(idx)@.len(),
        arrangement(old(idx)@, v@.len()),
        callable_on(*old(compare), v@),
    ensures
        *final(compare) == *old(compare),
        r is None ==> refused(*old(compare), v@) && final(idx)@ == old(idx)@,
        r matches Some(start) ==> {
            &&& start < end
            &&& (start == 0 || start + 2 <= end)
            &&& rearranged(old(idx)@, final(idx)@, start as int, end as int)
            &&& ascending(*old(compare), v@, final(idx)@, start as int, end as int)
            &&& start + 2 <= end ==> all_weighed(
                *old(compare),
                v@,
                final(idx)@,
                start as int,
                end as int,
            )
        },
{
    let ghost s = v@;
    let mut start: usize = end - 1;
    if start == 0 {
        assert(idx@.subrange(0, end as int) =~= old(idx)@.subrange(0, end as int));
        return Some(start);
    }
    start = start - 1;
    let first = precedes(v, idx[start + 1], idx[start], compare);
    match first {
        None => None,
        Some(true) => {
            let mut going = true;
            while start > 0 && going
                invariant
                    start + 2 <= end <= idx@.len(),
                    idx@ == old(idx)@,
                    s == v@,
                    *compare == *old(compare),
                    arrangement(idx@, s.len()),
                    callable_on(*compare, s),
                    all_weighed(*compare, s, idx@, start as int, end as int),
                    forall|p: int, q: int|
                        start <= p < q < end ==> placed(
                            *compare,
                            s,
                            #[trigger] idx@[q] as int,
                            #[trigger] idx@[p] as int,
                        ),
                decreases start + (if going { 1int } else { 0int }),
            {
                match precedes(v, idx[start], idx[start - 1], compare) {
                    None => {
                        return None;
                    },
                    Some(true) => {
                        proof {
                            assert forall|p: int, q: int| start - 1 <= p < q < end implies placed(
                                *compare,
                                s,
                                #[trigger] idx@[q] as int,
                                #[trigger] idx@[p] as int,
                            ) by {
                                if p == start - 1 && q > start {
                                    lemma_placed_transitive(
                                        *compare,
                                        s,
                                        idx@[q] as int,
                                        idx@[start as int] as int,
                                        idx@[p] as int,
                                    );
                                }
                            }
                        }
                        start = start - 1;
                    },
                    Some(false) => {
                        going = false;
                    },
                }
            }
            let ghost found = idx@;
            reverse_range(idx, start, end);
            proof {
                assert forall|p: int, q: int| start <= p < q < end implies placed(
                    *compare,
                    s,
                    #[trigger] idx@[p] as int,
                    #[trigger] idx@[q] as int,
                ) by {
                    assert(idx@[p] == found[start + end - 1 - p]);
                    assert(idx@[q] == found[start + end - 1 - q]);
                }
                assert forall|p: int| start <= p < end implies weighed(
                    *compare,
                    s,
                    s[#[trigger] idx@[p] as int],
                ) by {
                    assert(idx@[p] == found[start + end - 1 - p]);
                }
            }
            Some(start)
        },
        Some(false) => {
            let mut going = true;
            while start > 0 && going
                invariant
                    start + 2 <= end <= idx@.len(),
                    idx@ == old(idx)@,
                    s == v@,
                    *compare == *old(compare),
                    arrangement(idx@, s.len()),
                    callable_on(*compare, s),
                    all_weighed(*compare, s, idx@, start as int, end as int),
                    ascending(*compare, s, idx@, start as int, end as int),
                decreases start + (if going { 1int } else { 0int }),
            {
                match precedes(v, idx[start], idx[start - 1], compare) {
                    None => {
                        return None;
                    },
                    Some(false) => {
                        proof {
                            assert forall|p: int, q: int| start - 1 <= p < q < end implies placed(
                                *compare,
                                s,
                                #[trigger] idx@[p] as int,
                                #[trigger] idx@[q] as int,
                            ) by {
                                if p == start - 1 && q > start {
                                    lemma_placed_transitive(
                                        *compare,
                                        s,
                                        idx@[p] as int,
                                        idx@[start as int] as int,
                                        idx@[q] as int,
                                    );
                                }
                            }
                        }
                        start = start - 1;
                    },
                    Some(true) => {
                        going = false;
                    },
                }
            }
            assert(idx@.subrange(start as int, end as int) =~= old(idx)@.subrange(
                start as int,
                end as int,
            ));
            Some(start)
        },
    }
}

/// The entries of three sequences taken together.
pub open spec fn pooled(a: Seq<usize>, b: Seq<usize>, c: Seq<usize>) -> Multiset<usize> {
    a.to_multiset().add(b.to_multiset()).add(c.to_multiset())
}

/// Moving the first entry of the third sequence to the end of the first keeps
/// the pool.
proof fn lemma_pool_take_third(a: Seq<usize>, b: Seq<usize>, c: Seq<usize>)
    requires
        c.len() > 0,
    ensures
        pooled(a.push(c[0]), b, c.remove(0)) == pooled(a, b, c),
{
    broadcast use vstd::multiset::group_multiset_axioms;

    vstd::seq_lib::to_multiset_build(a, c[0]);
    vstd::seq_lib::to_multiset_remove(c, 0);
    vstd::seq_lib::to_multiset_contains(c, c[0]);
    assert(c.contains(c[0]));
    assert(pooled(a.push(c[0]), b, c.remove(0)) =~= pooled(a, b, c));
}

/// Moving the first entry of the second sequence to the end of the first keeps
/// the pool.
proof fn lemma_pool_take_second(a: Seq<usize>, b: Seq<usize>, c: Seq<usize>)
    requires
        b.len() > 0,
    ensures
        pooled(a.push(b[0]), b.remove(0), c) == pooled(a, b, c),
{
    broadcast use vstd::multiset::group_multiset_axioms;

    vstd::seq_lib::to_multiset_build(a, b[0]);
    vstd::seq_lib::to_multiset_remove(b, 0);
    vstd::seq_lib::to_multiset_contains(b, b[0]);
    assert(b.contains(b[0]));
    assert(pooled(a.push(b[0]), b.remove(0), c) =~= pooled(a, b, c));
}

/// A pool whose one part is empty holds what the other two hold in a row.
proof fn lemma_pool_of_two(a: Seq<usize>, c: Seq<usize>)
    ensures
        pooled(a, Seq::<usize>::empty(), c) == (a + c).to_multiset(),
        pooled(Seq::<usize>::empty(), a, c) == (a + c).to_multiset(),
        pooled(a, c, Seq::<usize>::empty()) == (a + c).to_multiset(),
{
    broadcast use vstd::multiset::group_multiset_axioms;

    let e = Seq::<usize>::empty();
    assert forall|x: usize| e.to_multiset().count(x) == 0 by {
        vstd::seq_lib::to_multiset_contains(e, x);
    }
    vstd::seq_lib::lemma_multiset_commutative(a, c);
    assert(pooled(a, e, c) =~= (a + c).to_multiset());
    assert(pooled(e, a, c) =~= (a + c).to_multiset());
    assert(pooled(a, c, e) =~= (a + c).to_multiset());
}

/// Merges the ascending runs `start..mid` and `mid..end` through a copy of the
/// left one, filling the stretch from its start. Of two entries of which
/// neither belongs before the other by its element, the left one is taken
/// first. When the comparison declines, what is left of the copy is put back
/// before the function returns.
pub(crate) fn merge_lo<T, F: FnMut(&T, &T) -> Option<bool>>(
    v: &[T],
    idx: &mut Vec<usize>,
    start: usize,
    mid: usize,
    end: usize,
    buf: &mut Vec<usize>,
    compare: &mut F,
) -> (r: Option<()>)
    requires
        start < mid < end <= old(idx)@.len(),
        arrangement(old(idx)@, v@.len()),
        callable_on(*old(compare), v@),
        ascending(*old(compare), v@, old(idx)@, start as int, mid as int),
        ascending(*old(compare), v@, old(idx)@, mid as int, end as int),
    ensures
        *final(compare) == *old(compare),
        rearranged(old(idx)@, final(idx)@, start as int, end as int),
        r is None ==> refused(*old(compare), v@),
        r is Some ==> ascending(*old(compare), v@, final(idx)@, start as int, end as int),
        r is Some ==> weighed(*old(compare), v@, v@[old(idx)@[start as int] as int]) && weighed(
            *old(compare),
            v@,
            v@[old(idx)@[mid as int] as int],
        ),
{
    let ghost s = v@;
    let ghost orig = idx@;
    buf.clear();
    let mut k: usize = start;
    while k < mid
        invariant
            start <= k <= mid <= idx@.len(),
            idx@ == orig,
            buf@ == orig.subrange(start as int, k as int),
        decreases mid - k,
    {
        buf.push(idx[k]);
        k = k + 1;
        assert(buf@ =~= orig.subrange(start as int, k as int));
    }
    let blen: usize = mid - start;
    let mut i: usize = 0;
    let mut j: usize = mid;
    let mut d: usize = start;
    let mut failed = false;
    proof {
        let whole = orig.subrange(start as int, end as int);
        let left = orig.subrange(start as int, mid as int);
        let right = orig.subrange(mid as int, end as int);
        assert(whole =~= left + right);
        lemma_pool_of_two(left, right);
        assert(idx@.subrange(start as int, d as int) =~= Seq::<usize>::empty());
        assert(buf@.subrange(0, blen as int) =~= left);
    }
    while i < blen && j < end && !failed
        invariant
            start < mid < end <= orig.len(),
            blen == mid - start,
            i <= blen,
            mid <= j <= end,
            d == start + i + (j - mid),
            s == v@,
            *compare == *old(compare),
            callable_on(*compare, s),
            arrangement(orig, s.len()),
            ascending(*compare, s, orig, start as int, mid as int),
            ascending(*compare, s, orig, mid as int, end as int),
            buf@ == orig.subrange(start as int, mid as int),
            idx@.len() == orig.len(),
            forall|k: int| 0 <= k < start || j <= k < orig.len() ==> idx@[k] == orig[k],
            pooled(
                idx@.subrange(start as int, d as int),
                buf@.subrange(i as int, blen as int),
                idx@.subrange(j as int, end as int),
            ) == orig.subrange(start as int, end as int).to_multiset(),
            !failed ==> ascending(*compare, s, idx@, start as int, d as int),
            !failed ==> forall|p: int, q: int|
                start <= p < d && i <= q < blen ==> placed(
                    *compare,
                    s,
                    #[trigger] idx@[p] as int,
                    #[trigger] buf@[q] as int,
                ),
            !failed ==> forall|p: int, q: int|
                start <= p < d && j <= q < end ==> placed(
                    *compare,
                    s,
                    #[trigger] idx@[p] as int,
                    #[trigger] orig[q] as int,
                ),
            failed ==> refused(*compare, s),
            !failed && (i > 0 || j > mid) ==> weighed(*compare, s, s[orig[start as int] as int])
                && weighed(*compare, s, s[orig[mid as int] as int]),
        decreases (blen - i) + (end - j) + (if failed { 0int } else { 1int }),
    {
        let left = buf[i];
        let right = idx[j];
        let ghost held = idx@;
        assert(left == orig[start + i]);
        assert(right == orig[j as int]);
        match precedes(v, right, left, compare) {
            None => {
                failed = true;
            },
            Some(true) => {
                idx[d] = right;
                proof {
                    let out = held.subrange(start as int, d as int);
                    let rest = held.subrange(j as int, end as int);
                    assert(idx@.subrange(start as int, d + 1) =~= out.push(rest[0]));
                    assert(idx@.subrange(j + 1, end as int) =~= rest.remove(0));
                    lemma_pool_take_third(out, buf@.subrange(i as int, blen as int), rest);
                    assert forall|p: int, q: int| start <= p < q < d + 1 implies placed(
                        *compare,
                        s,
                        #[trigger] idx@[p] as int,
                        #[trigger] idx@[q] as int,
                    ) by {
                        assert(idx@[p] == held[p]);
                        if q < d {
                            assert(idx@[q] == held[q]);
                        } else {
                            assert(placed(*compare, s, held[p] as int, orig[j as int] as int));
                        }
                    }
                    assert forall|p: int, q: int| start <= p < d + 1 && i <= q < blen implies placed(
                        *compare,
                        s,
                        #[trigger] idx@[p] as int,
                        #[trigger] buf@[q] as int,
                    ) by {
                        if p < d {
                            assert(idx@[p] == held[p]);
                        } else if q > i {
                            assert(buf@[q] == orig[start + q]);
                            lemma_placed_transitive(
                                *compare,
                                s,
                                right as int,
                                left as int,
                                buf@[q] as int,
                            );
                        }
                    }
                    assert forall|p: int, q: int| start <= p < d + 1 && j + 1 <= q < end implies placed(
                        *compare,
                        s,
                        #[trigger] idx@[p] as int,
                        #[trigger] orig[q] as int,
                    ) by {
                        if p < d {
                            assert(idx@[p] == held[p]);
                        }
                    }
                }
                j = j + 1;
                d = d + 1;
            },
            Some(false) => {
                idx[d] = left;
                proof {
                    let out = held.subrange(start as int, d as int);
                    let rest = buf@.subrange(i as int, blen as int);
                    assert(idx@.subrange(start as int, d + 1) =~= out.push(rest[0]));
                    assert(buf@.subrange(i + 1, blen as int) =~= rest.remove(0));
                    assert(idx@.subrange(j as int, end as int) =~= held.subrange(j as int, end as int));
                    lemma_pool_take_second(out, rest, held.subrange(j as int, end as int));
                    assert forall|p: int, q: int| start <= p < q < d + 1 implies placed(
                        *compare,
                        s,
                        #[trigger] idx@[p] as int,
                        #[trigger] idx@[q] as int,
                    ) by {
                        assert(idx@[p] == held[p]);
                        if q < d {
                            assert(idx@[q] == held[q]);
                        } else {
                            assert(placed(*compare, s, held[p] as int, buf@[i as int] as int));
                        }
                    }
                    assert forall|p: int, q: int| start <= p < d + 1 && i + 1 <= q < blen implies placed(
                        *compare,
                        s,
                        #[trigger] idx@[p] as int,
                        #[trigger] buf@[q] as int,
                    ) by {
                        if p < d {
                            assert(idx@[p] == held[p]);
                        } else {
                            assert(buf@[q] == orig[start + q]);
                        }
                    }
                    assert forall|p: int, q: int| start <= p < d + 1 && j <= q < end implies placed(
                        *compare,
                        s,
                        #[trigger] idx@[p] as int,
                        #[trigger] orig[q] as int,
                    ) by {
                        if p < d {
                            assert(idx@[p] == held[p]);
                        } else if q > j {
                            lemma_placed_transitive(
                                *compare,
                                s,
                                left as int,
                                right as int,
                                orig[q] as int,
                            );
                        }
                    }
                }
                i = i + 1;
                d = d + 1;
            },
        }
    }
    while i < blen
        invariant
            start < mid < end <= orig.len(),
            blen == mid - start,
            i <= blen,
            mid <= j <= end,
            d == start + i + (j - mid),
            failed || i == blen || j == end,
            buf@ == orig.subrange(start as int, mid as int),
            ascending(*compare, s, orig, start as int, mid as int),
            idx@.len() == orig.len(),
            forall|k: int| 0 <= k < start || j <= k < orig.len() ==> idx@[k] == orig[k],
            pooled(
                idx@.subrange(start as int, d as int),
                buf@.subrange(i as int, blen as int),
                idx@.subrange(j as int, end as int),
            ) == orig.subrange(start as int, end as int).to_multiset(),
            !failed ==> ascending(*compare, s, idx@, start as int, d as int),
            !failed ==> forall|p: int, q: int|
                start <= p < d && i <= q < blen ==> placed(
                    *compare,
                    s,
                    #[trigger] idx@[p] as int,
                    #[trigger] buf@[q] as int,
                ),
            !failed ==> forall|p: int, q: int|
                start <= p < d && j <= q < end ==> placed(
                    *compare,
                    s,
                    #[trigger] idx@[p] as int,
                    #[trigger] orig[q] as int,
                ),
        decreases blen - i,
    {
        let left = buf[i];
        let ghost held = idx@;
        idx[d] = left;
        proof {
            let out = held.subrange(start as int, d as int);
            let rest = buf@.subrange(i as int, blen as int);
            assert(idx@.subrange(start as int, d + 1) =~= out.push(rest[0]));
            assert(buf@.subrange(i + 1, blen as int) =~= rest.remove(0));
            assert(idx@.subrange(j as int, end as int) =~= held.subrange(j as int, end as int));
            lemma_pool_take_second(out, rest, held.subrange(j as int, end as int));
            if !failed {
                assert forall|p: int, q: int| start <= p < q < d + 1 implies placed(
                    *compare,
                    s,
                    #[trigger] idx@[p] as int,
                    #[trigger] idx@[q] as int,
                ) by {
                    assert(idx@[p] == held[p]);
                    if q < d {
                        assert(idx@[q] == held[q]);
                    } else {
                        assert(placed(*compare, s, held[p] as int, buf@[i as int] as int));
                    }
                }
                assert forall|p: int, q: int| start <= p < d + 1 && i + 1 <= q < blen implies placed(
                    *compare,
                    s,
                    #[trigger] idx@[p] as int,
                    #[trigger] buf@[q] as int,
                ) by {
                    if p < d {
                        assert(idx@[p] == held[p]);
                    } else {
                        assert(buf@[q] == orig[start + q]);
                        assert(buf@[i as int] == orig[start + i]);
                    }
                }
                assert forall|p: int, q: int| start <= p < d + 1 && j <= q < end implies placed(
                    *compare,
                    s,
                    #[trigger] idx@[p] as int,
                    #[trigger] orig[q] as int,
                ) by {
                    if p < d {
                        assert(idx@[p] == held[p]);
                    }
                }
            }
        }
        i = i + 1;
        d = d + 1;
    }
    proof {
        let out = idx@.subrange(start as int, d as int);
        let rest = idx@.subrange(j as int, end as int);
        assert(buf@.subrange(i as int, blen as int) =~= Seq::<usize>::empty());
        assert(idx@.subrange(start as int, end as int) =~= out + rest);
        lemma_pool_of_two(out, rest);
        if !failed {
            assert forall|p: int, q: int| start <= p < q < end implies placed(
                *compare,
                s,
                #[trigger] idx@[p] as int,
                #[trigger] idx@[q] as int,
            ) by {
                if q >= d {
                    assert(idx@[q] == orig[q]);
                    if p >= d {
                        assert(idx@[p] == orig[p]);
                    }
                }
            }
        }
    }
    if failed {
        None
    } else {
        Some(())
    }
}

/// Moving the last entry of the first sequence to the front of the third keeps
/// the pool.
proof fn lemma_pool_give_first(a: Seq<usize>, b: Seq<usize>, c: Seq<usize>)
    requires
        a.len() > 0,
    ensures
        pooled(a.drop_last(), b, seq![a.last()] + c) == pooled(a, b, c),
{
    broadcast use vstd::multiset::group_multiset_axioms;

    let x = a.last();
    assert(a =~= a.drop_last().push(x));
    vstd::seq_lib::to_multiset_build(a.drop_last(), x);
    assert((seq![x] + c) =~= c.insert(0, x));
    vstd::seq_lib::to_multiset_insert(c, 0, x);
    assert(pooled(a.drop_last(), b, seq![x] + c) =~= pooled(a, b, c));
}

/// Moving the last entry of the second sequence to the front of the third
/// keeps the pool.
proof fn lemma_pool_give_second(a: Seq<usize>, b: Seq<usize>, c: Seq<usize>)
    requires
        b.len() > 0,
    ensures
        pooled(a, b.drop_last(), seq![b.last()] + c) == pooled(a, b, c),
{
    broadcast use vstd::multiset::group_multiset_axioms;

    let x = b.last();
    assert(b =~= b.drop_last().push(x));
    vstd::seq_lib::to_multiset_build(b.drop_last(), x);
    assert((seq![x] + c) =~= c.insert(0, x));
    vstd::seq_lib::to_multiset_insert(c, 0, x);
    assert(pooled(a, b.drop_last(), seq![x] + c) =~= pooled(a, b, c));
}

/// Merges the ascending runs `start..mid` and `mid..end` through a copy of the
/// right one, filling the stretch from its end. Of two entries of which
/// neither belongs before the other by its element, the right one is placed
/// last. When the comparison declines, what is left of the copy is put back
/// before the function returns.
pub(crate) fn merge_hi<T, F: FnMut(&T, &T) -> Option<bool>>(
    v: &[T],
    idx: &mut Vec<usize>,
    start: usize,
    mid: usize,
    end: usize,
    buf: &mut Vec<usize>,
    compare: &mut F,
) -> (r: Option<()>)
    requires
        start < mid < end <= old(idx)@.len(),
        arrangement(old(idx)@, v@.len()),
        callable_on(*old(compare), v@),
        ascending(*old(compare), v@, old(idx)@, start as int, mid as int),
        ascending(*old(compare), v@, old(idx)@, mid as int, end as int),
    ensures
        *final(compare) == *old(compare),
        rearranged(old(idx)@, final(idx)@, start as int, end as int),
        r is None ==> refused(*old(compare), v@),
        r is Some ==> ascending(*old(compare), v@, final(idx)@, start as int, end as int),
        r is Some ==> weighed(*old(compare), v@, v@[old(idx)@[mid - 1] as int]) && weighed(
            *old(compare),
            v@,
            v@[old(idx)@[end - 1] as int],
        ),
{
    let ghost s = v@;
    let ghost orig = idx@;
    buf.clear();
    let mut k: usize = mid;
    while k < end
        invariant
            mid <= k <= end <= idx@.len(),
            idx@ == orig,
            buf@ == orig.subrange(mid as int, k as int),
        decreases end - k,
    {
        buf.push(idx[k]);
        k = k + 1;
        assert(buf@ =~= orig.subrange(mid as int, k as int));
    }
    let blen: usize = end - mid;
    let mut i: usize = blen;
    let mut j: usize = mid;
    let mut d: usize = end;
    let mut failed = false;
    proof {
        let whole = orig.subrange(start as int, end as int);
        let left = orig.subrange(start as int, mid as int);
        let right = orig.subrange(mid as int, end as int);
        assert(whole =~= left + right);
        lemma_pool_of_two(left, right);
        assert(idx@.subrange(d as int, end as int) =~= Seq::<usize>::empty());
        assert(buf@.subrange(0, i as int) =~= right);
    }
    while i > 0 && j > start && !failed
        invariant
            start < mid < end <= orig.len(),
            blen == end - mid,
            i <= blen,
            start <= j <= mid,
            d == j + i,
            s == v@,
            *compare == *old(compare),
            callable_on(*compare, s),
            arrangement(orig, s.len()),
            ascending(*compare, s, orig, start as int, mid as int),
            ascending(*compare, s, orig, mid as int, end as int),
            buf@ == orig.subrange(mid as int, end as int),
            idx@.len() == orig.len(),
            forall|k: int| 0 <= k < j || end <= k < orig.len() ==> idx@[k] == orig[k],
            pooled(
                idx@.subrange(start as int, j as int),
                buf@.subrange(0, i as int),
                idx@.subrange(d as int, end as int),
            ) == orig.subrange(start as int, end as int).to_multiset(),
            !failed ==> ascending(*compare, s, idx@, d as int, end as int),
            !failed ==> forall|p: int, q: int|
                0 <= p < i && d <= q < end ==> placed(
                    *compare,
                    s,
                    #[trigger] buf@[p] as int,
                    #[trigger] idx@[q] as int,
                ),
            !failed ==> forall|p: int, q: int|
                start <= p < j && d <= q < end ==> placed(
                    *compare,
                    s,
                    #[trigger] orig[p] as int,
                    #[trigger] idx@[q] as int,
                ),
            failed ==> refused(*compare, s),
            !failed && (i < blen || j < mid) ==> weighed(*compare, s, s[orig[mid - 1] as int])
                && weighed(*compare, s, s[orig[end - 1] as int]),
        decreases i + j + (if failed { 0int } else { 1int }),
    {
        let right = buf[i - 1];
        let left = idx[j - 1];
        let ghost held = idx@;
        assert(right == orig[mid + i - 1]);
        assert(left == orig[j - 1]);
        match precedes(v, right, left, compare) {
            None => {
                failed = true;
            },
            Some(true) => {
                idx[d - 1] = left;
                proof {
                    let rest = held.subrange(start as int, j as int);
                    let out = held.subrange(d as int, end as int);
                    assert(idx@.subrange(d - 1, end as int) =~= seq![rest.last()] + out);
                    assert(idx@.subrange(start as int, j - 1) =~= rest.drop_last());
                    lemma_pool_give_first(rest, buf@.subrange(0, i as int), out);
                    assert forall|p: int, q: int| d - 1 <= p < q < end implies placed(
                        *compare,
                        s,
                        #[trigger] idx@[p] as int,
                        #[trigger] idx@[q] as int,
                    ) by {
                        assert(idx@[q] == held[q]);
                        if p >= d {
                            assert(idx@[p] == held[p]);
                        } else {
                            assert(placed(*compare, s, orig[j - 1] as int, held[q] as int));
                        }
                    }
                    assert forall|p: int, q: int| 0 <= p < i && d - 1 <= q < end implies placed(
                        *compare,
                        s,
                        #[trigger] buf@[p] as int,
                        #[trigger] idx@[q] as int,
                    ) by {
                        if q >= d {
                            assert(idx@[q] == held[q]);
                        } else if p < i - 1 {
                            assert(buf@[p] == orig[mid + p]);
                            lemma_placed_transitive(
                                *compare,
                                s,
                                buf@[p] as int,
                                right as int,
                                left as int,
                            );
                        }
                    }
                    assert forall|p: int, q: int| start <= p < j - 1 && d - 1 <= q < end implies placed(
                        *compare,
                        s,
                        #[trigger] orig[p] as int,
                        #[trigger] idx@[q] as int,
                    ) by {
                        if q >= d {
                            assert(idx@[q] == held[q]);
                        }
                    }
                }
                j = j - 1;
                d = d - 1;
            },
            Some(false) => {
                idx[d - 1] = right;
                proof {
                    let rest = buf@.subrange(0, i as int);
                    let out = held.subrange(d as int, end as int);
                    assert(idx@.subrange(d - 1, end as int) =~= seq![rest.last()] + out);
                    assert(buf@.subrange(0, i - 1) =~= rest.drop_last());
                    assert(idx@.subrange(start as int, j as int) =~= held.subrange(
                        start as int,
                        j as int,
                    ));
                    lemma_pool_give_second(held.subrange(start as int, j as int), rest, out);
                    assert forall|p: int, q: int| d - 1 <= p < q < end implies placed(
                        *compare,
                        s,
                        #[trigger] idx@[p] as int,
                        #[trigger] idx@[q] as int,
                    ) by {
                        assert(idx@[q] == held[q]);
                        if p >= d {
                            assert(idx@[p] == held[p]);
                        } else {
                            assert(placed(*compare, s, buf@[i - 1] as int, held[q] as int));
                        }
                    }
                    assert forall|p: int, q: int| 0 <= p < i - 1 && d - 1 <= q < end implies placed(
                        *compare,
                        s,
                        #[trigger] buf@[p] as int,
                        #[trigger] idx@[q] as int,
                    ) by {
                        if q >= d {
                            assert(idx@[q] == held[q]);
                        } else {
                            assert(buf@[p] == orig[mid + p]);
                        }
                    }
                    assert forall|p: int, q: int| start <= p < j && d - 1 <= q < end implies placed(
                        *compare,
                        s,
                        #[trigger] orig[p] as int,
                        #[trigger] idx@[q] as int,
                    ) by {
                        if q >= d {
                            assert(idx@[q] == held[q]);
                        } else if p < j - 1 {
                            lemma_placed_transitive(
                                *compare,
                                s,
                                orig[p] as int,
                                left as int,
                                right as int,
                            );
                        }
                    }
                }
                i = i - 1;
                d = d - 1;
            },
        }
    }
    while i > 0
        invariant
            start < mid < end <= orig.len(),
            blen == end - mid,
            i <= blen,
            start <= j <= mid,
            d == j + i,
            failed || i == 0 || j == start,
            buf@ == orig.subrange(mid as int, end as int),
            ascending(*compare, s, orig, mid as int, end as int),
            idx@.len() == orig.len(),
            forall|k: int| 0 <= k < j || end <= k < orig.len() ==> idx@[k] == orig[k],
            pooled(
                idx@.subrange(start as int, j as int),
                buf@.subrange(0, i as int),
                idx@.subrange(d as int, end as int),
            ) == orig.subrange(start as int, end as int).to_multiset(),
            !failed ==> ascending(*compare, s, idx@, d as int, end as int),
            !failed ==> forall|p: int, q: int|
                0 <= p < i && d <= q < end ==> placed(
                    *compare,
                    s,
                    #[trigger] buf@[p] as int,
                    #[trigger] idx@[q] as int,
                ),
            !failed ==> forall|p: int, q: int|
                start <= p < j && d <= q < end ==> placed(
                    *compare,
                    s,
                    #[trigger] orig[p] as int,
                    #[trigger] idx@[q] as int,
                ),
        decreases i,
    {
        let right = buf[i - 1];
        let ghost held = idx@;
        idx[d - 1] = right;
        proof {
            let rest = buf@.subrange(0, i as int);
            let out = held.subrange(d as int, end as int);
            assert(idx@.subrange(d - 1, end as int) =~= seq![rest.last()] + out);
            assert(buf@.subrange(0, i - 1) =~= rest.drop_last());
            assert(idx@.subrange(start as int, j as int) =~= held.subrange(start as int, j as int));
            lemma_pool_give_second(held.subrange(start as int, j as int), rest, out);
            if !failed {
                assert forall|p: int, q: int| d - 1 <= p < q < end implies placed(
                    *compare,
                    s,
                    #[trigger] idx@[p] as int,
                    #[trigger] idx@[q] as int,
                ) by {
                    assert(idx@[q] == held[q]);
                    if p >= d {
                        assert(idx@[p] == held[p]);
                    } else {
                        assert(placed(*compare, s, buf@[i - 1] as int, held[q] as int));
                    }
                }
                assert forall|p: int, q: int| 0 <= p < i - 1 && d - 1 <= q < end implies placed(
                    *compare,
                    s,
                    #[trigger] buf@[p] as int,
                    #[trigger] idx@[q] as int,
                ) by {
                    if q >= d {
                        assert(idx@[q] == held[q]);
                    } else {
                        assert(buf@[p] == orig[mid + p]);
                        assert(buf@[i - 1] == orig[mid + i - 1]);
                    }
                }
                assert forall|p: int, q: int| start <= p < j && d - 1 <= q < end implies placed(
                    *compare,
                    s,
                    #[trigger] orig[p] as int,
                    #[trigger] idx@[q] as int,
                ) by {
                    if q >= d {
                        assert(idx@[q] == held[q]);
                    }
                }
            }
        }
        i = i - 1;
        d = d - 1;
    }
    proof {
        let rest = idx@.subrange(start as int, j as int);
        let out = idx@.subrange(d as int, end as int);
        assert(buf@.subrange(0, i as int) =~= Seq::<usize>::empty());
        assert(idx@.subrange(start as int, end as int) =~= rest + out);
        lemma_pool_of_two(rest, out);
        if !failed {
            assert forall|p: int, q: int| start <= p < q < end implies placed(
                *compare,
                s,
                #[trigger] idx@[p] as int,
                #[trigger] idx@[q] as int,
            ) by {
                if p < j {
                    assert(idx@[p] == orig[p]);
                    if q < j {
                        assert(idx@[q] == orig[q]);
                    }
                }
            }
        }
    }
    if failed {
        None
    } else {
        Some(())
    }
}

/// Merges two neighbouring ascending runs into one, through a copy of the
/// shorter.
pub(crate) fn merge<T, F: FnMut(&T, &T) -> Option<bool>>(
    v: &[T],
    idx: &mut Vec<usize>,
    start: usize,
    mid: usize,
    end: usize,
    buf: &mut Vec<usize>,
    compare: &mut F,
) -> (r: Option<()>)
    requires
        start < mid < end <= old(idx)@.len(),
        arrangement(old(idx)@, v@.len()),
        callable_on(*old(compare), v@),
        ascending(*old(compare), v@, old(idx)@, start as int, mid as int),
        ascending(*old(compare), v@, old(idx)@, mid as int, end as int),
    ensures
        *final(compare) == *old(compare),
        rearranged(old(idx)@, final(idx)@, start as int, end as int),
        r is None ==> refused(*old(compare), v@),
        r is Some ==> ascending(*old(compare), v@, final(idx)@, start as int, end as int),
        r is Some && (mid == start + 1 || all_weighed(
            *old(compare),
            v@,
            old(idx)@,
            start as int,
            mid as int,
        )) && (end == mid + 1 || all_weighed(*old(compare), v@, old(idx)@, mid as int, end as int))
            ==> all_weighed(*old(compare), v@, final(idx)@, start as int, end as int),
{
    let r = if mid - start <= end - mid {
        merge_lo(v, idx, start, mid, end, buf, compare)
    } else {
        merge_hi(v, idx, start, mid, end, buf, compare)
    };
    proof {
        let s = v@;
        if r is Some && (mid == start + 1 || all_weighed(
            *compare,
            s,
            old(idx)@,
            start as int,
            mid as int,
        )) && (end == mid + 1 || all_weighed(*compare, s, old(idx)@, mid as int, end as int)) {
            assert forall|p: int| start <= p < end implies weighed(
                *compare,
                s,
                s[#[trigger] idx@[p] as int],
            ) by {
                let q = lemma_rearranged_member(old(idx)@, idx@, start as int, end as int, p);
                assert(idx@[p] == old(idx)@[q]);
            }
        }
    }
    r
}

/// A stretch of the list that is known to ascend.
#[derive(Clone, Copy)]
pub struct Run {
    pub start: usize,
    pub len: usize,
}

/// The runs lie side by side, the first at the right end of a list of `n`
/// entries and the last starting at `end`; none is empty.
pub open spec fn stacked(runs: Seq<Run>, end: int, n: int) -> bool {
    &&& 0 <= end <= n
    &&& runs.len() == 0 ==> end == n
    &&& runs.len() > 0 ==> runs[0].start + runs[0].len == n && runs.last().start == end
    &&& forall|k: int|
        0 <= k < runs.len() ==> (#[trigger] runs[k]).len >= 1 && end <= runs[k].start
            && runs[k].start + runs[k].len <= n
    &&& forall|j: int, k: int|
        0 <= k && j == k + 1 && j < runs.len() ==> (#[trigger] runs[j]).start + runs[j].len == (
        #[trigger] runs[k]).start
}

/// Whether two runs on the stack have to be merged now: the last run has
/// reached the start of the list, or a run is not longer than the one after
/// it, or not longer than the two after it together.
pub open spec fn merge_due(runs: Seq<Run>) -> bool {
    let n = runs.len() as int;
    n >= 2 && (runs[n - 1].start == 0 || runs[n - 2].len <= runs[n - 1].len || (n >= 3 && runs[n
        - 3].len <= runs[n - 2].len + runs[n - 1].len) || (n >= 4 && runs[n - 4].len <= runs[n
        - 3].len + runs[n - 2].len))
}

/// Which run is merged with the one after it: of the last three runs the two
/// that leave the shorter result.
pub open spec fn merge_place(runs: Seq<Run>) -> int {
    let n = runs.len() as int;
    if n >= 3 && runs[n - 3].len < runs[n - 1].len {
        n - 3
    } else {
        n - 2
    }
}

/// Looks at the top of the stack and says which run, if any, is to be merged
/// with its successor.
pub(crate) fn collapse(runs: &Vec<Run>) -> (r: Option<usize>)
    requires
        exists|end: int, n: int| stacked(runs@, end, n) && n <= usize::MAX,
    ensures
        r is Some <==> merge_due(runs@),
        r matches Some(k) ==> k == merge_place(runs@) && k + 1 < runs@.len(),
{
    let n = runs.len();
    proof {
        let (end, total) = choose|end: int, total: int|
            stacked(runs@, end, total) && total <= usize::MAX;
        assert forall|k: int| 0 <= k < n - 1 implies (#[trigger] runs@[k]).len + runs@[k + 1].len
            <= total by {
            assert(runs@[k + 1].start + runs@[k + 1].len == runs@[k].start);
        }
    }
    if n >= 2 && (runs[n - 1].start == 0 || runs[n - 2].len <= runs[n - 1].len || (n >= 3 && runs[n
        - 3].len <= runs[n - 2].len + runs[n - 1].len) || (n >= 4 && runs[n - 4].len <= runs[n
        - 3].len + runs[n - 2].len)) {
        if n >= 3 && runs[n - 3].len < runs[n - 1].len {
            Some(n - 3)
        } else {
            Some(n - 2)
        }
    } else {
        None
    }
}

/// Lists of at most this many entries are sorted by insertion alone.
pub const MAX_INSERTION: usize = 20;

/// Runs shorter than this are extended by insertion.
pub const MIN_RUN: usize = 10;

/// The run ascends, and if it has more than one entry, the comparison has an
/// answer about each of its elements.
pub open spec fn run_sound<T, F: FnMut(&T, &T) -> Option<bool>>(
    compare: F,
    s: Seq<T>,
    idx: Seq<usize>,
    run: Run,
) -> bool {
    &&& ascending(compare, s, idx, run.start as int, run.start + run.len)
    &&& run.len >= 2 ==> all_weighed(compare, s, idx, run.start as int, run.start + run.len)
}

/// A run stays sound while its own stretch of the list is left alone.
proof fn lemma_run_kept<T, F: FnMut(&T, &T) -> Option<bool>>(
    compare: F,
    s: Seq<T>,
    idx: Seq<usize>,
    other: Seq<usize>,
    run: Run,
)
    requires
        run_sound(compare, s, idx, run),
        run.start + run.len <= idx.len(),
        other.len() == idx.len(),
        forall|k: int| run.start <= k < run.start + run.len ==> other[k] == idx[k],
    ensures
        run_sound(compare, s, other, run),
{
    assert forall|p: int, q: int| run.start <= p < q < run.start + run.len implies placed(
        compare,
        s,
        #[trigger] other[p] as int,
        #[trigger] other[q] as int,
    ) by {
        assert(other[p] == idx[p] && other[q] == idx[q]);
    }
    if run.len >= 2 {
        assert forall|p: int| run.start <= p < run.start + run.len implies weighed(
            compare,
            s,
            s[#[trigger] other[p] as int],
        ) by {
            assert(other[p] == idx[p]);
        }
    }
}

/// Lists the positions of `v` in the order in which a stable sort leaves the
/// elements: position `r[k]` is where the element that belongs at `k` stands.
///
/// Short inputs are ranked by insertion from the right. Longer ones are cut
/// into runs from the right end; each run is pushed on a stack, and the stack
/// is merged down whenever its top runs are out of proportion, and at the end
/// into one run.
pub(crate) fn sorted_positions<T, F: FnMut(&T, &T) -> Option<bool>>(
    v: &[T],
    compare: &mut F,
) -> (r: Option<
    Vec<usize>,
>)
    requires
        callable_on(*old(compare), v@),
    ensures
        *final(compare) == *old(compare),
        r is None ==> refused(*old(compare), v@),
        v@.len() < 2 ==> r is Some,
        r matches Some(idx) ==> {
            &&& idx@.len() == v@.len()
            &&& arrangement(idx@, v@.len())
            &&& ascending(*old(compare), v@, idx@, 0, v@.len() as int)
            &&& v@.len() >= 2 ==> all_weighed(*old(compare), v@, idx@, 0, v@.len() as int)
        },
{
    let ghost s = v@;
    let len = v.len();
    let mut idx: Vec<usize> = Vec::with_capacity(len);
    let mut k: usize = 0;
    while k < len
        invariant
            k <= len,
            idx@.len() == k,
            forall|p: int| 0 <= p < k ==> idx@[p] == p,
        decreases len - k,
    {
        idx.push(k);
        k = k + 1;
    }
    if len < 2 {
        return Some(idx);
    }
    if len <= MAX_INSERTION {
        let mut i: usize = len - 1;
        while i > 0
            invariant
                i < len,
                len == s.len(),
                s == v@,
                idx@.len() == len,
                *compare == *old(compare),
                callable_on(*compare, s),
                arrangement(idx@, s.len()),
                ascending(*compare, s, idx@, i as int, len as int),
                i + 2 <= len ==> all_weighed(*compare, s, idx@, i as int, len as int),
            decreases i,
        {
            i = i - 1;
            let ghost held = idx@;
            match insert_head(v, &mut idx, i, len, compare) {
                None => {
                    return None;
                },
                Some(_) => {
                    proof {
                        lemma_rearranged_arrangement(held, idx@, i as int, len as int, s.len());
                    }
                },
            }
        }
        return Some(idx);
    }
    let mut buf: Vec<usize> = Vec::with_capacity(len / 2);
    let mut runs: Vec<Run> = Vec::new();
    let mut end: usize = len;
    while end > 0
        invariant
            len == s.len(),
            len >= 2,
            s == v@,
            idx@.len() == len,
            *compare == *old(compare),
            callable_on(*compare, s),
            arrangement(idx@, s.len()),
            stacked(runs@, end as int, len as int),
            end < len ==> runs@.len() >= 1,
            end == 0 ==> runs@.len() == 1,
            forall|k: int| 0 <= k < runs@.len() ==> run_sound(*compare, s, idx@, #[trigger] runs@[k]),
        decreases end,
    {
        let ghost at_entry = idx@;
        let mut start: usize = match next_run(v, &mut idx, end, compare) {
            None => {
                return None;
            },
            Some(found) => found,
        };
        proof {
            lemma_rearranged_arrangement(at_entry, idx@, start as int, end as int, s.len());
        }
        while start > 0 && end - start < MIN_RUN
            invariant
                start < end <= len,
                len == s.len(),
                s == v@,
                idx@.len() == len,
                *compare == *old(compare),
                callable_on(*compare, s),
                arrangement(idx@, s.len()),
                start == 0 || start + 2 <= end,
                ascending(*compare, s, idx@, start as int, end as int),
                start + 2 <= end ==> all_weighed(*compare, s, idx@, start as int, end as int),
                forall|k: int| end <= k < len ==> idx@[k] == at_entry[k],
            decreases start,
        {
            start = start - 1;
            let ghost held = idx@;
            match insert_head(v, &mut idx, start, end, compare) {
                None => {
                    return None;
                },
                Some(_) => {
                    proof {
                        lemma_rearranged_arrangement(held, idx@, start as int, end as int, s.len());
                    }
                },
            }
        }
        let ghost below = runs@;
        let fresh = Run { start, len: end - start };
        runs.push(fresh);
        proof {
            assert forall|k: int| 0 <= k < runs@.len() implies run_sound(
                *compare,
                s,
                idx@,
                #[trigger] runs@[k],
            ) by {
                if k < below.len() {
                    assert(runs@[k] == below[k]);
                    lemma_run_kept(*compare, s, at_entry, idx@, below[k]);
                }
            }
            assert(stacked(runs@, start as int, len as int)) by {
                assert forall|j: int, k: int| 0 <= k && j == k + 1 && j < runs@.len() implies (
                #[trigger] runs@[j]).start + runs@[j].len == (#[trigger] runs@[k]).start by {
                    assert(runs@[k] == below[k]);
                    if j < below.len() {
                        assert(runs@[j] == below[j]);
                    }
                }
                assert forall|k: int| 0 <= k < runs@.len() implies (#[trigger] runs@[k]).len >= 1
                    && start <= runs@[k].start && runs@[k].start + runs@[k].len <= len by {
                    if k < below.len() {
                        assert(runs@[k] == below[k]);
                    }
                }
            }
        }
        end = start;
        let mut due = collapse(&runs);
        while due.is_some()
            invariant
                len == s.len(),
                len >= 2,
                s == v@,
                idx@.len() == len,
                *compare == *old(compare),
                callable_on(*compare, s),
                arrangement(idx@, s.len()),
                stacked(runs@, end as int, len as int),
                runs@.len() >= 1,
                due is Some <==> merge_due(runs@),
                due matches Some(k) ==> k == merge_place(runs@) && k + 1 < runs@.len(),
                forall|k: int|
                    0 <= k < runs@.len() ==> run_sound(*compare, s, idx@, #[trigger] runs@[k]),
            decreases runs@.len(),
        {
            let at = due.unwrap();
            match merge_pair(v, &mut idx, &mut runs, at, &mut buf, compare, Ghost(end as int)) {
                None => {
                    return None;
                },
                Some(_) => {},
            }
            due = collapse(&runs);
        }
    }
    proof {
        assert(runs@[0].start == 0 && runs@[0].len == len);
        assert(run_sound(*compare, s, idx@, runs@[0]));
    }
    Some(idx)
}

/// The stack after the run at `at` has taken in the one above it.
pub open spec fn joined_stack(runs: Seq<Run>, at: int) -> Seq<Run> {
    runs.update(
        at,
        Run { start: runs[at + 1].start, len: (runs[at + 1].len + runs[at].len) as usize },
    ).remove(at + 1)
}

/// Joining two neighbouring runs leaves a stack over the same stretch.
proof fn lemma_join_stacked(stack: Seq<Run>, end: int, n: int, at: int)
    requires
        stacked(stack, end, n),
        n <= usize::MAX,
        0 <= at,
        at + 1 < stack.len(),
    ensures
        stacked(joined_stack(stack, at), end, n),
{
    let joined = Run {
        start: stack[at + 1].start,
        len: (stack[at + 1].len + stack[at].len) as usize,
    };
    let runs = joined_stack(stack, at);
    assert(stack[at + 1].start + stack[at + 1].len == stack[at].start);
    assert(runs[at] == joined);
    assert forall|j: int, k: int| 0 <= k && j == k + 1 && j < runs.len() implies (
    #[trigger] runs[j]).start + runs[j].len == (#[trigger] runs[k]).start by {
        if k + 1 < at {
            assert(runs[k] == stack[k] && runs[k + 1] == stack[k + 1]);
        } else if k + 1 == at {
            assert(runs[k] == stack[k]);
            assert(stack[k + 1].start + stack[k + 1].len == stack[k].start);
        } else if k == at {
            assert(runs[k + 1] == stack[k + 2]);
            assert(stack[at + 2].start + stack[at + 2].len == stack[at + 1].start);
        } else {
            assert(runs[k] == stack[k + 1] && runs[k + 1] == stack[k + 2]);
            assert(stack[k + 2].start + stack[k + 2].len == stack[k + 1].start);
        }
    }
    assert forall|k: int| 0 <= k < runs.len() implies (#[trigger] runs[k]).len >= 1 && end
        <= runs[k].start && runs[k].start + runs[k].len <= n by {
        if k < at {
            assert(runs[k] == stack[k]);
        } else if k > at {
            assert(runs[k] == stack[k + 1]);
        }
    }
    if at + 2 == stack.len() {
        assert(runs.last() == joined);
    } else {
        assert(runs.last() == stack.last());
    }
    if at == 0 {
        assert(runs[0] == joined);
    } else {
        assert(runs[0] == stack[0]);
    }
}

/// After the stretch of two neighbouring runs has been merged into one
/// ascending run, every run of the joined stack is sound.
proof fn lemma_join_sound<T, F: FnMut(&T, &T) -> Option<bool>>(
    compare: F,
    s: Seq<T>,
    held: Seq<usize>,
    idx: Seq<usize>,
    stack: Seq<Run>,
    end: int,
    at: int,
)
    requires
        stacked(stack, end, s.len() as int),
        0 <= at,
        at + 1 < stack.len(),
        held.len() == s.len(),
        forall|k: int| 0 <= k < stack.len() ==> run_sound(compare, s, held, #[trigger] stack[k]),
        rearranged(
            held,
            idx,
            stack[at + 1].start as int,
            stack[at].start + stack[at].len,
        ),
        run_sound(compare, s, idx, joined_stack(stack, at)[at]),
    ensures
        forall|k: int|
            0 <= k < joined_stack(stack, at).len() ==> run_sound(
                compare,
                s,
                idx,
                #[trigger] joined_stack(stack, at)[k],
            ),
{
    let runs = joined_stack(stack, at);
    assert forall|k: int| 0 <= k < runs.len() implies run_sound(compare, s, idx, #[trigger] runs[k]) by {
        if k < at {
            assert(runs[k] == stack[k]);
            lemma_stack_descends(stack, end, s.len() as int, k, at);
            lemma_run_kept(compare, s, held, idx, stack[k]);
        } else if k > at {
            assert(runs[k] == stack[k + 1]);
            lemma_stack_descends(stack, end, s.len() as int, at + 1, k + 1);
            lemma_run_kept(compare, s, held, idx, stack[k + 1]);
        }
    }
}

/// Merges the run at `at` of the stack with the one above it, which lies to
/// its left in the list, and replaces the two by the run that results.
pub(crate) fn merge_pair<T, F: FnMut(&T, &T) -> Option<bool>>(
    v: &[T],
    idx: &mut Vec<usize>,
    runs: &mut Vec<Run>,
    at: usize,
    buf: &mut Vec<usize>,
    compare: &mut F,
    Ghost(end): Ghost<int>,
) -> (r: Option<()>)
    requires
        at + 1 < old(runs)@.len(),
        old(idx)@.len() == v@.len(),
        arrangement(old(idx)@, v@.len()),
        callable_on(*old(compare), v@),
        stacked(old(runs)@, end, v@.len() as int),
        forall|k: int|
            0 <= k < old(runs)@.len() ==> run_sound(
                *old(compare),
                v@,
                old(idx)@,
                #[trigger] old(runs)@[k],
            ),
    ensures
        *final(compare) == *old(compare),
        final(idx)@.len() == v@.len(),
        arrangement(final(idx)@, v@.len()),
        r is None ==> refused(*old(compare), v@),
        r is Some ==> final(runs)@ == joined_stack(old(runs)@, at as int),
        r is Some ==> stacked(final(runs)@, end, v@.len() as int),
        r is Some ==> forall|k: int|
            0 <= k < final(runs)@.len() ==> run_sound(
                *old(compare),
                v@,
                final(idx)@,
                #[trigger] final(runs)@[k],
            ),
{
    let ghost s = v@;
    let ghost held = idx@;
    let ghost stack = runs@;
    let len = v.len();
    let depth = runs.len();
    assert(at + 1 < depth);
    let left = runs[at + 1];
    let right = runs[at];
    proof {
        assert(run_sound(*compare, s, held, stack[at as int]));
        assert(run_sound(*compare, s, held, stack[at + 1]));
        assert(stack[at + 1].start + stack[at + 1].len == stack[at as int].start);
        assert(stack[at as int].start + stack[at as int].len <= len);
    }
    let merged = merge(
        v,
        idx,
        left.start,
        right.start,
        right.start + right.len,
        buf,
        compare,
    );
    proof {
        lemma_rearranged_arrangement(
            held,
            idx@,
            left.start as int,
            right.start + right.len,
            s.len(),
        );
    }
    if merged.is_none() {
        return None;
    }
    let joined = Run { start: left.start, len: left.len + right.len };
    runs[at] = joined;
    runs.remove(at + 1);
    proof {
        assert(runs@ =~= joined_stack(stack, at as int));
        lemma_join_stacked(stack, end, s.len() as int, at as int);
        lemma_join_sound(*compare, s, held, idx@, stack, end, at as int);
    }
    Some(())
}

/// A run deeper in the stack starts where or after a higher one ends.
proof fn lemma_stack_descends(runs: Seq<Run>, end: int, n: int, lower: int, upper: int)
    requires
        stacked(runs, end, n),
        0 <= lower < upper < runs.len(),
    ensures
        runs[upper].start + runs[upper].len <= runs[lower].start,
    decreases upper - lower,
{
    if lower + 1 < upper {
        lemma_stack_descends(runs, end, n, lower + 1, upper);
        assert(runs[lower + 1].start + runs[lower + 1].len == runs[lower].start);
    } else {
        assert(runs[lower + 1].start + runs[lower + 1].len == runs[lower].start);
    }
}

/// A list of positions that ascends from end to end is a stable order under
/// every relation that orders the elements.
proof fn lemma_ascending_is_stable<T, F: FnMut(&T, &T) -> Option<bool>>(
    compare: F,
    s: Seq<T>,
    idx: Seq<usize>,
    out: Seq<T>,
    lt: spec_fn(T, T) -> Option<bool>,
)
    requires
        idx.len() == s.len(),
        out.len() == s.len(),
        arrangement(idx, s.len()),
        ascending(compare, s, idx, 0, s.len() as int),
        forall|k: int| 0 <= k < s.len() ==> out[k] == s[idx[k] as int],
        orders(compare, lt, s),
    ensures
        stably_sorted(out, s, lt),
        sorted_by(out, lt),
{
    let order = Seq::new(idx.len(), |k: int| idx[k] as int);
    assert forall|p: int, q: int| 0 <= p < q < order.len() implies before(
        s,
        lt,
        #[trigger] order[p],
        #[trigger] order[q],
    ) by {
        assert(placed(compare, s, idx[p] as int, idx[q] as int));
    }
    assert(stable_order(order, s, lt));
    lemma_stably_sorted_is_sorted(out, s, lt);
}

/// Sorts `v` stably by a comparison that may decline.
///
/// The elements are never lost or doubled. When the comparison declines, `v`
/// is left exactly as it was.
pub fn merge_sort<T, F: FnMut(&T, &T) -> Option<bool>>(v: &mut [T], compare: F) -> (r: Option<()>)
    requires
        callable_on(compare, old(v)@),
    ensures
        final(v)@.len() == old(v)@.len(),
        final(v)@.to_multiset() == old(v)@.to_multiset(),
        old(v)@.len() < 2 ==> r is Some,
        r is None ==> refused(compare, old(v)@) && final(v)@ == old(v)@,
        forall|lt: spec_fn(T, T) -> Option<bool>| #[trigger]
            orders(compare, lt, old(v)@) ==> r is Some && stably_sorted(final(v)@, old(v)@, lt)
                && sorted_by(final(v)@, lt),
        r is Some && old(v)@.len() >= 2 ==> forall|k: int|
            0 <= k < old(v)@.len() ==> weighed(compare, old(v)@, #[trigger] final(v)@[k]),
{
    let mut compare = compare;
    let ghost s = v@;
    match sorted_positions(v, &mut compare) {
        None => {
            proof {
                assert forall|lt: spec_fn(T, T) -> Option<bool>| #[trigger]
                    orders(compare, lt, s) implies false by {
                    lemma_orders_never_refused(compare, lt, s);
                }
            }
            None
        },
        Some(mut idx) => {
            let ghost order = idx@;
            arrange(v, &mut idx);
            proof {
                assert forall|lt: spec_fn(T, T) -> Option<bool>| #[trigger]
                    orders(compare, lt, s) implies stably_sorted(v@, s, lt) && sorted_by(v@, lt) by {
                    lemma_ascending_is_stable(compare, s, order, v@, lt);
                }
                if s.len() >= 2 {
                    assert forall|k: int| 0 <= k < s.len() implies weighed(
                        compare,
                        s,
                        #[trigger] v@[k],
                    ) by {
                        assert(v@[k] == s[order[k] as int]);
                    }
                }
            }
            Some(())
        },
    }
}

} // verus!
