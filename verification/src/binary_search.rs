//! Binary search with a probe that may decline to answer.
//!
//! The probe says of an element whether it is less than, equal to or greater
//! than what is sought. The sequence is taken to be divided accordingly, the
//! lesser elements first and the greater last; to see to that is the caller's part.

use vstd::prelude::*;
use vstd::std_specs::cmp::PartialOrdSpec;
use core::cmp::Ordering;
use crate::key::{key_callable, keys_follow};
use vstd::laws_cmp::obeys_partial_cmp_spec_properties;
use crate::order::{length, place, pos, sorted_by};
use crate::{comparable_on, lawful, natural, obeys, InvalidOrderError, OrderResult};

verus! {

/// The probe can be called on every member of `s`.
pub open spec fn probe_callable<T, F: FnMut(&T) -> Option<Ordering>>(probe: F, s: Seq<T>) -> bool {
    forall|a: T| s.contains(a) ==> #[trigger] call_requires(probe, (&a,))
}

/// On members of `s` the probe can only answer as `rel` does.
pub open spec fn probe_follows<T, F: FnMut(&T) -> Option<Ordering>>(
    probe: F,
    rel: spec_fn(T) -> Option<Ordering>,
    s: Seq<T>,
) -> bool {
    forall|a: T, o: Option<Ordering>|
        s.contains(a) && #[trigger] call_ensures(probe, (&a,), o) ==> o == rel(a)
}

/// The probe can give the answer `o` for the element at position `k`.
pub open spec fn says_at<T, F: FnMut(&T) -> Option<Ordering>>(
    probe: F,
    s: Seq<T>,
    k: int,
    o: Option<Ordering>,
) -> bool {
    0 <= k < s.len() && call_ensures(probe, (&s[k],), o)
}

/// `rel` has an answer for every element of `s`, and no element that it calls
/// less stands behind one that it does not, no element that it calls greater
/// before one that it does not.
pub open spec fn divided<T>(s: Seq<T>, rel: spec_fn(T) -> Option<Ordering>) -> bool {
    &&& forall|k: int| 0 <= k < s.len() ==> (#[trigger] rel(s[k])) is Some
    &&& forall|i: int, j: int|
        0 <= i < j < s.len() && #[trigger] rel(s[j]) == Some(Ordering::Less) ==> #[trigger] rel(
            s[i],
        ) == Some(Ordering::Less)
    &&& forall|i: int, j: int|
        0 <= i < j < s.len() && #[trigger] rel(s[i]) == Some(Ordering::Greater) ==> #[trigger] rel(
            s[j],
        ) == Some(Ordering::Greater)
}

/// What the probe's answers show of a search result: a position that was found
/// holds an element that the probe can call equal; a place to insert lies
/// behind an element that it can call less, unless it is the first place, and
/// before one that it can call greater, unless it is the last; a failure comes
/// with an element about which the probe can decline.
pub open spec fn search_shown<T, F: FnMut(&T) -> Option<Ordering>>(
    probe: F,
    s: Seq<T>,
    r: Option<Result<usize, usize>>,
) -> bool {
    match r {
        Some(Ok(i)) => says_at(probe, s, pos(i), Some(Ordering::Equal)),
        Some(Err(i)) => {
            &&& i <= s.len()
            &&& i > 0 ==> says_at(probe, s, pos(i) - 1, Some(Ordering::Less))
            &&& i < s.len() ==> says_at(probe, s, pos(i), Some(Ordering::Greater))
        },
        None => exists|k: int| #[trigger] says_at(probe, s, k, None),
    }
}

/// A search result that is right under `rel`: the position of an element that
/// is equal, or else the place before which all elements are less and from
/// which on all are greater.
pub open spec fn search_right<T>(
    s: Seq<T>,
    rel: spec_fn(T) -> Option<Ordering>,
    r: Option<Result<usize, usize>>,
) -> bool {
    match r {
        Some(Ok(i)) => i < s.len() && rel(s[pos(i)]) == Some(Ordering::Equal),
        Some(Err(i)) => {
            &&& i <= s.len()
            &&& forall|k: int| 0 <= k < i ==> #[trigger] rel(s[k]) == Some(Ordering::Less)
            &&& forall|k: int| i <= k < s.len() ==> #[trigger] rel(s[k]) == Some(Ordering::Greater)
        },
        None => false,
    }
}

/// In a divided sequence, what the answers of a probe that follows the
/// relation show is right.
pub proof fn lemma_shown_is_right<T, F: FnMut(&T) -> Option<Ordering>>(
    probe: F,
    rel: spec_fn(T) -> Option<Ordering>,
    s: Seq<T>,
    r: Option<Result<usize, usize>>,
)
    requires
        probe_follows(probe, rel, s),
        divided(s, rel),
        search_shown(probe, s, r),
    ensures
        search_right(s, rel, r),
{
    match r {
        Some(Ok(i)) => {
            assert(s.contains(s[pos(i)]));
        },
        Some(Err(i)) => {
            if i > 0 {
                assert(s.contains(s[pos(i) - 1]));
                assert(rel(s[pos(i) - 1]) == Some(Ordering::Less));
            }
            if i < s.len() {
                assert(s.contains(s[pos(i)]));
                assert(rel(s[pos(i)]) == Some(Ordering::Greater));
            }
            assert forall|k: int| 0 <= k < i implies #[trigger] rel(s[k]) == Some(
                Ordering::Less,
            ) by {
                if k < i - 1 {
                    assert(rel(s[pos(i) - 1]) == Some(Ordering::Less));
                }
            }
            assert forall|k: int| i <= k < s.len() implies #[trigger] rel(s[k]) == Some(
                Ordering::Greater,
            ) by {
                if k > i {
                    assert(rel(s[pos(i)]) == Some(Ordering::Greater));
                }
            }
        },
        None => {
            let k = choose|k: int| #[trigger] says_at(probe, s, k, None);
            assert(s.contains(s[k]));
            assert(rel(s[k]) is Some);
        },
    }
}

/// What halving finds between `left` and `right` under `rel`: the element in
/// the middle decides, "less" for the upper half, "greater" for the lower,
/// "equal" for its own position; an empty stretch gives the place to insert,
/// and an element without an answer no result.
pub open spec fn halving<T>(
    s: Seq<T>,
    rel: spec_fn(T) -> Option<Ordering>,
    left: int,
    right: int,
) -> Option<Result<int, int>>
    decreases right - left,
{
    if left >= right {
        Some(Err(left))
    } else {
        let mid = left + (right - left) / 2;
        match rel(s[mid]) {
            None => None,
            Some(Ordering::Less) => halving(s, rel, mid + 1, right),
            Some(Ordering::Greater) => halving(s, rel, left, mid),
            Some(Ordering::Equal) => Some(Ok(mid)),
        }
    }
}

/// Searches a sequence by halving the stretch in which what is sought can
/// lie. Each step asks the probe about the element in the middle of the
/// stretch: "less" moves the left end behind it, "greater" the right end to
/// it, "equal" ends the search there, and no answer ends it with `None`. An
/// empty sequence is not probed at all.
pub fn try_binary_search_by_inner<T, F>(slice: &[T], probe: F) -> (r: Option<Result<usize, usize>>) where
    F: FnMut(&T) -> Option<Ordering>,

    requires
        probe_callable(probe, slice@),
    ensures
        search_shown(probe, slice@, r),
        forall|rel: spec_fn(T) -> Option<Ordering>| #[trigger]
            probe_follows(probe, rel, slice@) ==> place(r) == halving(slice@, rel, 0, length(slice@)),
        forall|rel: spec_fn(T) -> Option<Ordering>|
            #[trigger] probe_follows(probe, rel, slice@) && divided(slice@, rel) ==> search_right(
                slice@,
                rel,
                r,
            ),
{
    let mut ask = probe;
    let ghost s = slice@;
    let len = slice.len();
    let mut size = len;
    let mut left: usize = 0;
    let mut right: usize = size;
    let mut r: Option<Result<usize, usize>> = None;
    let mut done = false;
    while size > 0 && !done
        invariant
            left <= right <= len,
            len == s.len(),
            s == slice@,
            !done ==> size == right - left,
            ask == probe,
            probe_callable(probe, s),
            left > 0 ==> says_at(probe, s, pos(left) - 1, Some(Ordering::Less)),
            right < len ==> says_at(probe, s, pos(right), Some(Ordering::Greater)),
            done ==> (r is None || r is Some && r->0 is Ok) && search_shown(probe, s, r),
            forall|rel: spec_fn(T) -> Option<Ordering>| #[trigger]
                probe_follows(probe, rel, s) ==> (if done {
                    place(r)
                } else {
                    halving(s, rel, pos(left), pos(right))
                }) == halving(s, rel, 0, pos(len)),
        decreases size + (if done { 0int } else { 1int }),
    {
        let mid = left + size / 2;
        assert(s.contains(s[pos(mid)]));
        let found = ask(&slice[mid]);
        assert(says_at(probe, s, pos(mid), found));
        proof {
            assert forall|rel: spec_fn(T) -> Option<Ordering>| #[trigger]
                probe_follows(probe, rel, s) implies rel(s[pos(mid)]) == found by {}
        }
        match found {
            None => {
                r = None;
                done = true;
            },
            Some(Ordering::Less) => {
                left = mid + 1;
                size = right - left;
            },
            Some(Ordering::Greater) => {
                right = mid;
                size = right - left;
            },
            Some(Ordering::Equal) => {
                r = Some(Ok(mid));
                done = true;
            },
        }
    }
    if !done {
        r = Some(Err(left));
    }
    proof {
        assert forall|rel: spec_fn(T) -> Option<Ordering>|
            #[trigger] probe_follows(probe, rel, s) && divided(s, rel) implies search_right(
            s,
            rel,
            r,
        ) by {
            lemma_shown_is_right(probe, rel, s, r);
        }
    }
    r
}

/// The search result of an operation that did not fail.
pub open spec fn found(r: OrderResult<Result<usize, usize>>) -> Option<Result<usize, usize>> {
    match r {
        Ok(place) => Some(place),
        Err(_) => None,
    }
}

/// What a search result tells under `rel`: a position that was found holds an
/// element that is equal; a place to insert lies behind an element that is
/// less, unless it is the first place, and before one that is greater, unless
/// it is the last; a failure comes with an element for which `rel` has no
/// answer.
pub open spec fn search_told<T>(
    s: Seq<T>,
    rel: spec_fn(T) -> Option<Ordering>,
    r: Option<Result<usize, usize>>,
) -> bool {
    match r {
        Some(Ok(i)) => i < s.len() && rel(s[pos(i)]) == Some(Ordering::Equal),
        Some(Err(i)) => {
            &&& i <= s.len()
            &&& i > 0 ==> rel(s[pos(i) - 1]) == Some(Ordering::Less)
            &&& i < s.len() ==> rel(s[pos(i)]) == Some(Ordering::Greater)
        },
        None => exists|k: int| 0 <= k < s.len() && (#[trigger] rel(s[k])) is None,
    }
}

/// What the answers of a probe show, the relation that it follows tells.
pub proof fn lemma_shown_is_told<T, F: FnMut(&T) -> Option<Ordering>>(
    probe: F,
    rel: spec_fn(T) -> Option<Ordering>,
    s: Seq<T>,
    r: Option<Result<usize, usize>>,
)
    requires
        probe_follows(probe, rel, s),
        search_shown(probe, s, r),
    ensures
        search_told(s, rel, r),
        divided(s, rel) ==> search_right(s, rel, r),
{
    match r {
        Some(Ok(i)) => {
            assert(s.contains(s[pos(i)]));
        },
        Some(Err(i)) => {
            if i > 0 {
                assert(s.contains(s[pos(i) - 1]));
            }
            if i < s.len() {
                assert(s.contains(s[pos(i)]));
            }
        },
        None => {
            let k = choose|k: int| #[trigger] says_at(probe, s, k, None);
            assert(s.contains(s[k]));
            assert(rel(s[k]) is None);
        },
    }
    if divided(s, rel) {
        lemma_shown_is_right(probe, rel, s, r);
    }
}

/// How the elements stand to `x` by the type's own comparison.
pub open spec fn against<T: PartialOrd>(x: T) -> spec_fn(T) -> Option<Ordering> {
    |a: T| a.partial_cmp_spec(&x)
}

/// How the elements stand to `b` by their keys; an element without a key has
/// no answer.
pub open spec fn key_against<T, K: PartialOrd>(key: spec_fn(T) -> Option<K>, b: K) -> spec_fn(
    T,
) -> Option<Ordering> {
    |a: T|
        match key(a) {
            None => None,
            Some(k) => k.partial_cmp_spec(&b),
        }
}

/// A sequence in ascending order is divided by whatever value the type can
/// compare with each of its elements: those less than the value come first,
/// then the value itself, where it occurs, then those greater.
pub proof fn lemma_sorted_is_divided<T: PartialOrd>(s: Seq<T>, x: T)
    requires
        lawful::<T>(),
        comparable_on(s.push(x)),
        sorted_by(s, natural::<T>()),
    ensures
        divided(s, against(x)),
{
    reveal(obeys_partial_cmp_spec_properties);
    let all = s.push(x);
    let rel = against(x);
    let lt = natural::<T>();
    assert(all[length(s)] == x);
    assert(all.contains(x));
    assert forall|k: int| 0 <= k < s.len() implies all.contains(#[trigger] s[k]) by {
        assert(all[k] == s[k]);
    }
    assert forall|k: int| 0 <= k < s.len() implies (#[trigger] rel(s[k])) is Some by {
        assert(all.contains(s[k]));
    }
    assert forall|i: int, j: int|
        0 <= i < j < s.len() && #[trigger] rel(s[j]) == Some(Ordering::Less) implies #[trigger] rel(
        s[i],
    ) == Some(Ordering::Less) by {
        assert(all.contains(s[i]) && all.contains(s[j]));
        assert(lt(s[j], s[i]) == Some(false));
        assert(s[j].partial_cmp_spec(&s[i]) is Some);
        if s[j].partial_cmp_spec(&s[i]) == Some(Ordering::Equal) {
            assert(s[j] == s[i]);
        } else {
            assert(s[j].partial_cmp_spec(&s[i]) == Some(Ordering::Greater));
            assert(s[i].partial_cmp_spec(&s[j]) == Some(Ordering::Less));
            assert(s[j].partial_cmp_spec(&x) == Some(Ordering::Less));
            assert(s[i].partial_cmp_spec(&x) == Some(Ordering::Less));
        }
    }
    assert forall|i: int, j: int|
        0 <= i < j < s.len() && #[trigger] rel(s[i]) == Some(
            Ordering::Greater,
        ) implies #[trigger] rel(s[j]) == Some(Ordering::Greater) by {
        assert(all.contains(s[i]) && all.contains(s[j]));
        assert(lt(s[j], s[i]) == Some(false));
        assert(s[j].partial_cmp_spec(&s[i]) is Some);
        if s[j].partial_cmp_spec(&s[i]) == Some(Ordering::Equal) {
            assert(s[j] == s[i]);
        } else {
            assert(s[j].partial_cmp_spec(&s[i]) == Some(Ordering::Greater));
            assert(s[i].partial_cmp_spec(&x) == Some(Ordering::Greater));
            assert(s[j].partial_cmp_spec(&x) == Some(Ordering::Greater));
        }
    }
}

/// `o` is how some key that the key function can give for `a` stands to `b`.
pub open spec fn key_probed<T, K: PartialOrd, F: FnMut(&T) -> Option<K>>(
    f: F,
    a: T,
    b: K,
    o: Option<Ordering>,
) -> bool {
    exists|k: Option<K>| #[trigger]
        call_ensures(f, (&a,), k) && match k {
            None => o is None,
            Some(key) => obeys::<K>() ==> o == key.partial_cmp_spec(&b),
        }
}

/// Binary search for sequences whose elements are only partially ordered.
///
/// An element for which there is no answer makes a search fail only if the
/// search comes to probe it.
pub trait TryBinarySearch<T>: View<V = Seq<T>> {
    /// Searches for `x` by the type's own comparison. In a sequence in
    /// ascending order the result is right: a position that holds `x`, or the
    /// place before which all elements are less and from which on all are
    /// greater.
    fn try_binary_search(&self, x: &T) -> (r: OrderResult<Result<usize, usize>>) where
        T: PartialOrd<T>,

        ensures
            obeys::<T>() ==> place(found(r)) == halving(self@, against(*x), 0, length(self@)),
            obeys::<T>() ==> search_told(self@, against(*x), found(r)),
            obeys::<T>() && divided(self@, against(*x)) ==> search_right(
                self@,
                against(*x),
                found(r),
            ),
            lawful::<T>() && comparable_on(self@.push(*x)) && sorted_by(self@, natural::<T>())
                ==> search_right(self@, against(*x), found(r)),
            self@.len() == 0 ==> r == Ok::<Result<usize, usize>, InvalidOrderError>(Err(0)),
    {
        let probe = |a: &T| -> (o: Option<Ordering>)
            ensures
                obeys::<T>() ==> o == a.partial_cmp_spec(x),
            { a.partial_cmp(x) };
        let r = self.try_binary_search_by(probe);
        proof {
            if obeys::<T>() {
                assert(probe_follows(probe, against(*x), self@));
                lemma_shown_is_told(probe, against(*x), self@, found(r));
            }
            if lawful::<T>() && comparable_on(self@.push(*x)) && sorted_by(self@, natural::<T>()) {
                lemma_sorted_is_divided(self@, *x);
            }
        }
        r
    }

    /// Searches with a probe that says how an element stands to what is
    /// sought.
    ///
    /// `Ok(Ok(i))` gives a position whose element the probe called equal,
    /// `Ok(Err(i))` the place where what is sought could be inserted, and the
    /// failure says that the probe declined. In a sequence that is divided
    /// under the relation that the probe follows, all elements before a place
    /// to insert are less and all from it on are greater.
    fn try_binary_search_by<F>(&self, compare: F) -> (r: OrderResult<Result<usize, usize>>) where
        F: FnMut(&T) -> Option<Ordering>,

        requires
            probe_callable(compare, self@),
        ensures
            search_shown(compare, self@, found(r)),
            forall|rel: spec_fn(T) -> Option<Ordering>| #[trigger]
                probe_follows(compare, rel, self@) ==> place(found(r)) == halving(
                    self@,
                    rel,
                    0,
                    length(self@),
                ),
            forall|rel: spec_fn(T) -> Option<Ordering>|
                #[trigger] probe_follows(compare, rel, self@) && divided(self@, rel)
                    ==> search_right(self@, rel, found(r)),
    ;

    /// Searches for the key `b` among the keys that `f` gives. An element
    /// without a key makes the search fail where it is probed.
    fn try_binary_search_by_key<K, F>(&self, b: &K, f: F) -> (r: OrderResult<
        Result<usize, usize>,
    >) where F: Fn(&T) -> Option<K>, K: PartialOrd<K>
        requires
            key_callable(f, self@),
        ensures
            self@.len() == 0 ==> r == Ok::<Result<usize, usize>, InvalidOrderError>(Err(0)),
            forall|key: spec_fn(T) -> Option<K>|
                #[trigger] keys_follow(f, key, self@) && obeys::<K>() ==> place(found(r))
                    == halving(self@, key_against(key, *b), 0, length(self@)),
            forall|key: spec_fn(T) -> Option<K>|
                #[trigger] keys_follow(f, key, self@) && obeys::<K>() ==> search_told(
                    self@,
                    key_against(key, *b),
                    found(r),
                ),
            forall|key: spec_fn(T) -> Option<K>|
                #[trigger] keys_follow(f, key, self@) && obeys::<K>() && divided(
                    self@,
                    key_against(key, *b),
                ) ==> search_right(self@, key_against(key, *b), found(r)),
    {
        let g = &f;
        let probe = |a: &T| -> (o: Option<Ordering>)
            requires
                call_requires(g, (a,)),
            ensures
                key_probed(g, *a, *b, o),
            {
                match g(a) {
                    None => None,
                    Some(k) => k.partial_cmp(b),
                }
            };
        let r = self.try_binary_search_by(probe);
        proof {
            assert forall|key: spec_fn(T) -> Option<K>|
                #[trigger] keys_follow(f, key, self@) && obeys::<K>() implies place(found(r))
                == halving(self@, key_against(key, *b), 0, length(self@)) && search_told(
                self@,
                key_against(key, *b),
                found(r),
            ) && (divided(self@, key_against(key, *b)) ==> search_right(
                self@,
                key_against(key, *b),
                found(r),
            )) by {
                assert forall|a: T, o: Option<Ordering>|
                    self@.contains(a) && #[trigger] call_ensures(probe, (&a,), o) implies o
                    == key_against(key, *b)(a) by {
                    assert(key_probed(g, a, *b, o));
                }
                assert(probe_follows(probe, key_against(key, *b), self@));
                lemma_shown_is_told(probe, key_against(key, *b), self@, found(r));
            }
        }
        r
    }
}

impl<T> TryBinarySearch<T> for [T] {
    fn try_binary_search_by<F>(&self, compare: F) -> (r: OrderResult<Result<usize, usize>>) where
        F: FnMut(&T) -> Option<Ordering>,
     {
        match try_binary_search_by_inner(self, compare) {
            Some(place) => Ok(place),
            None => Err(InvalidOrderError),
        }
    }
}

/// A search in a sequence that is not empty fails if the relation has no
/// answer for any of its elements.
pub proof fn lemma_search_fails_without_answers<T>(
    s: Seq<T>,
    rel: spec_fn(T) -> Option<Ordering>,
    r: Option<Result<usize, usize>>,
)
    requires
        s.len() > 0,
        forall|k: int| 0 <= k < s.len() ==> (#[trigger] rel(s[k])) is None,
        search_told(s, rel, r),
    ensures
        r is None,
{
    match r {
        Some(Ok(i)) => {
            assert(rel(s[pos(i)]) is None);
        },
        Some(Err(i)) => {
            if i > 0 {
                assert(rel(s[pos(i) - 1]) is None);
            } else {
                assert(rel(s[pos(i)]) is None);
            }
        },
        None => {},
    }
}

} // verus!
