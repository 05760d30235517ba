//! Moving the elements of a slice into a listed order, in place.

use vstd::prelude::*;
use crate::order::{lemma_swapped_multiset, swapped};
use crate::sort::rank::arrangement;

verus! {

/// `<[T]>::swap` exchanges the elements at two positions of a slice and leaves
/// the others where they are; with one position given twice nothing changes.
/// It panics on a position outside the slice, so both have to lie within.
pub assume_specification<Elem>[ <[Elem]>::swap ](s: &mut [Elem], a: usize, b: usize)
    requires
        a < old(s)@.len(),
        b < old(s)@.len(),
    ensures
        final(s)@ == old(s)@.update(a as int, old(s)@[b as int]).update(b as int, old(s)@[a as int]),
;

/// Where an element that stood at `w` has got to, once the positions before
/// `i` have been filled: each of those positions notes where its former
/// element was sent, and the notes are followed until they lead to `i` or
/// beyond.
pub open spec fn chase(idx: Seq<usize>, i: int, w: int) -> int
    decreases
            (if w < i {
                i - w
            } else {
                0
            }),
{
    if 0 <= w < i && w < idx.len() && idx[w] > w {
        chase(idx, i, idx[w] as int)
    } else {
        w
    }
}

/// Filling position `i` from `m` adds one note, and only the chases that ended
/// at `i` go on, to `m`.
proof fn lemma_chase_step(idx: Seq<usize>, i: int, m: usize, w: int)
    requires
        0 <= i < idx.len(),
        i <= m,
        0 <= w,
        m == i ==> chase(idx, i, w) != i,
    ensures
        chase(idx.update(i, m), i + 1, w) == if chase(idx, i, w) == i {
            m as int
        } else {
            chase(idx, i, w)
        },
    decreases
            (if w < i {
                i - w
            } else {
                0
            }),
{
    let next = idx.update(i, m);
    if w < i && idx[w] > w {
        assert(next[w] == idx[w]);
        lemma_chase_step(idx, i, m, idx[w] as int);
    } else if w == i {
        assert(next[i] == m);
        if m > i {
            assert(chase(next, i + 1, m as int) == m);
        }
    } else if w < i {
        assert(next[w] == idx[w]);
    }
}

/// Rearranges `v` so that position `k` holds the element that stood at
/// `idx[k]`. The list is used up as a record of where elements were sent: an
/// element that is wanted may have been moved out of its place already, and is
/// found by following that record.
pub(crate) fn arrange<T>(v: &mut [T], idx: &mut Vec<usize>)
    requires
        old(idx)@.len() == old(v)@.len(),
        arrangement(old(idx)@, old(v)@.len()),
    ensures
        final(v)@.len() == old(v)@.len(),
        forall|k: int|
            0 <= k < old(v)@.len() ==> final(v)@[k] == old(v)@[old(idx)@[k] as int],
        final(v)@.to_multiset() == old(v)@.to_multiset(),
{
    let ghost orig = v@;
    let ghost want = idx@;
    let len = v.len();
    let ghost mut at: Seq<int> = Seq::new(len as nat, |p: int| p);
    let mut i: usize = 0;
    while i < len
        invariant
            i <= len,
            len == orig.len(),
            v@.len() == len,
            idx@.len() == len,
            want.len() == len,
            arrangement(want, len as nat),
            at.len() == len,
            forall|p: int| 0 <= p < len ==> 0 <= #[trigger] at[p] < len,
            forall|p: int, q: int| 0 <= p < q < len ==> #[trigger] at[p] != #[trigger] at[q],
            forall|p: int| 0 <= p < len ==> #[trigger] v@[p] == orig[at[p]],
            forall|k: int| 0 <= k < i ==> #[trigger] at[k] == want[k],
            forall|k: int| i <= k < len ==> #[trigger] idx@[k] == want[k],
            forall|k: int| 0 <= k < len ==> #[trigger] idx@[k] < len,
            v@.to_multiset() == orig.to_multiset(),
            forall|w: int|
                0 <= w < len && (forall|k: int| 0 <= k < i ==> #[trigger] want[k] != w) ==> i
                    <= #[trigger] chase(idx@, i as int, w) < len && at[chase(idx@, i as int, w)]
                    == w,
        decreases len - i,
    {
        let wanted = idx[i];
        let ghost target = chase(idx@, i as int, wanted as int);
        assert(forall|k: int| 0 <= k < i ==> #[trigger] want[k] != wanted);
        let mut index = wanted;
        while index < i
            invariant
                index < len,
                i < len,
                idx@.len() == len,
                forall|k: int| 0 <= k < len ==> #[trigger] idx@[k] < len,
                chase(idx@, i as int, index as int) == target,
                i <= target < len,
            decreases
                    (if index < i {
                        i - index
                    } else {
                        0
                    }),
        {
            assert(idx@[index as int] > index);
            index = idx[index];
        }
        let ghost held = idx@;
        let ghost was = v@;
        let ghost before = at;
        idx[i] = index;
        v.swap(i, index);
        proof {
            at = swapped(before, i as int, index as int);
            lemma_swapped_multiset(was, i as int, index as int);
            assert(v@ == swapped(was, i as int, index as int));
            assert forall|w: int|
                0 <= w < len && (forall|k: int| 0 <= k < i + 1 ==> #[trigger] want[k] != w) implies i
                + 1 <= #[trigger] chase(idx@, i + 1, w) < len && at[chase(idx@, i + 1, w)] == w by {
                assert(forall|k: int| 0 <= k < i ==> #[trigger] want[k] != w);
                assert(want[i as int] != w);
                let c = chase(held, i as int, w);
                assert(before[c] == w);
                assert(before[index as int] == wanted);
                assert(c != index);
                lemma_chase_step(held, i as int, index, w);
            }
        }
        i = i + 1;
    }
}

} // verus!
