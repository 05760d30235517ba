//! Sorting by keys that are computed once for each element.

use vstd::prelude::*;
use crate::key::{by_key, key_callable, key_lt, keys_follow};
use crate::order::{
    answers, before, lemma_lone_never_weighed, lemma_same_members, lemma_stably_sorted_is_sorted,
    lone, orders, refused, sorted_by, stable_order, stably_sorted, total_on, undefined_on,
};
use crate::sort::rank::{all_weighed, arrangement, ascending, placed};

verus! {

/// `keys` holds, place by place, a key that the key function can give for the
/// element of `s`.
pub open spec fn keys_given<T, K, F: FnMut(&T) -> Option<K>>(
    f: F,
    s: Seq<T>,
    keys: Seq<Option<K>>,
) -> bool {
    &&& keys.len() == s.len()
    &&& forall|i: int| 0 <= i < s.len() ==> call_ensures(f, (&s[i],), #[trigger] keys[i])
}

/// Calls the key function once on each element, from left to right, and
/// collects the keys.
pub(crate) fn keys_of<T, K, F: FnMut(&T) -> Option<K>>(v: &[T], f: &mut F) -> (keys: Vec<Option<K>>)
    requires
        key_callable(*old(f), v@),
    ensures
        *final(f) == *old(f),
        keys_given(*old(f), v@, keys@),
{
    let len = v.len();
    let mut keys: Vec<Option<K>> = Vec::with_capacity(len);
    let mut i: usize = 0;
    while i < len
        invariant
            i <= len,
            len == v@.len(),
            *f == *old(f),
            key_callable(*f, v@),
            keys@.len() == i,
            forall|j: int| 0 <= j < i ==> call_ensures(*f, (&v@[j],), #[trigger] keys@[j]),
        decreases len - i,
    {
        assert(v@.contains(v@[i as int]));
        let k = f(&v[i]);
        keys.push(k);
        i = i + 1;
    }
    keys
}

/// The keys of a sequence that its key relation orders are ordered by the
/// relation of keys, and the two relations place positions alike.
proof fn lemma_keys_ordered<T, K: PartialOrd>(
    key: spec_fn(T) -> Option<K>,
    s: Seq<T>,
    keys: Seq<Option<K>>,
)
    requires
        keys.len() == s.len(),
        forall|i: int| 0 <= i < s.len() ==> #[trigger] keys[i] == key(s[i]),
        total_on(by_key(key), s),
    ensures
        total_on(key_lt::<K>(), keys),
{
    let lt = key_lt::<K>();
    let rel = by_key(key);
    assert forall|a: Option<K>, b: Option<K>| keys.contains(a) && keys.contains(b) implies (
    #[trigger] lt(a, b)) is Some by {
        let i = choose|i: int| 0 <= i < keys.len() && keys[i] == a;
        let j = choose|j: int| 0 <= j < keys.len() && keys[j] == b;
        assert(s.contains(s[i]) && s.contains(s[j]));
        assert(rel(s[i], s[j]) == lt(a, b));
    }
    assert forall|a: Option<K>| keys.contains(a) implies #[trigger] lt(a, a) == Some(false) by {
        let i = choose|i: int| 0 <= i < keys.len() && keys[i] == a;
        assert(s.contains(s[i]));
        assert(rel(s[i], s[i]) == lt(a, a));
    }
    assert forall|a: Option<K>, b: Option<K>, c: Option<K>|
        keys.contains(a) && keys.contains(b) && keys.contains(c) && #[trigger] lt(a, b) == Some(
            true,
        ) && #[trigger] lt(b, c) == Some(true) implies lt(a, c) == Some(true) by {
        let i = choose|i: int| 0 <= i < keys.len() && keys[i] == a;
        let j = choose|j: int| 0 <= j < keys.len() && keys[j] == b;
        let k = choose|k: int| 0 <= k < keys.len() && keys[k] == c;
        assert(s.contains(s[i]) && s.contains(s[j]) && s.contains(s[k]));
        assert(rel(s[i], s[j]) == lt(a, b) && rel(s[j], s[k]) == lt(b, c) && rel(s[i], s[k]) == lt(
            a,
            c,
        ));
    }
    assert forall|a: Option<K>, b: Option<K>, c: Option<K>|
        keys.contains(a) && keys.contains(b) && keys.contains(c) && #[trigger] lt(a, b) == Some(
            false,
        ) && #[trigger] lt(b, c) == Some(false) implies lt(a, c) == Some(false) by {
        let i = choose|i: int| 0 <= i < keys.len() && keys[i] == a;
        let j = choose|j: int| 0 <= j < keys.len() && keys[j] == b;
        let k = choose|k: int| 0 <= k < keys.len() && keys[k] == c;
        assert(s.contains(s[i]) && s.contains(s[j]) && s.contains(s[k]));
        assert(rel(s[i], s[j]) == lt(a, b) && rel(s[j], s[k]) == lt(b, c) && rel(s[i], s[k]) == lt(
            a,
            c,
        ));
    }
}

/// Arranging the elements as their keys were ranked sorts them stably by key.
pub proof fn lemma_ranked_by_key<
    T,
    K: PartialOrd,
    F: FnMut(&T) -> Option<K>,
    C: FnMut(&Option<K>, &Option<K>) -> Option<bool>,
>(
    f: F,
    c: C,
    key: spec_fn(T) -> Option<K>,
    s: Seq<T>,
    keys: Seq<Option<K>>,
    idx: Seq<usize>,
    out: Seq<T>,
)
    requires
        keys_follow(f, key, s),
        keys_given(f, s, keys),
        answers(c, key_lt::<K>(), keys),
        total_on(by_key(key), s),
        idx.len() == s.len(),
        out.len() == s.len(),
        arrangement(idx, s.len()),
        ascending(c, keys, idx, 0, s.len() as int),
        forall|k: int| 0 <= k < s.len() ==> #[trigger] out[k] == s[idx[k] as int],
    ensures
        stably_sorted(out, s, by_key(key)),
        sorted_by(out, by_key(key)),
{
    assert forall|i: int| 0 <= i < s.len() implies #[trigger] keys[i] == key(s[i]) by {
        assert(s.contains(s[i]));
    }
    lemma_keys_ordered(key, s, keys);
    let lt = key_lt::<K>();
    assert(orders(c, lt, keys));
    let order = Seq::new(idx.len(), |k: int| idx[k] as int);
    assert forall|p: int, q: int| 0 <= p < q < order.len() implies before(
        s,
        by_key(key),
        #[trigger] order[p],
        #[trigger] order[q],
    ) by {
        assert(placed(c, keys, idx[p] as int, idx[q] as int));
        assert(before(keys, lt, idx[p] as int, idx[q] as int));
        assert(keys[idx[p] as int] == key(s[idx[p] as int]));
        assert(keys[idx[q] as int] == key(s[idx[q] as int]));
    }
    assert(stable_order(order, s, by_key(key)));
    lemma_stably_sorted_is_sorted(out, s, by_key(key));
}

/// Where comparing the keys was declined, the key relation has no answer for
/// some two elements.
pub proof fn lemma_refused_by_key<
    T,
    K: PartialOrd,
    F: FnMut(&T) -> Option<K>,
    C: FnMut(&Option<K>, &Option<K>) -> Option<bool>,
>(f: F, c: C, key: spec_fn(T) -> Option<K>, s: Seq<T>, keys: Seq<Option<K>>)
    requires
        keys_follow(f, key, s),
        keys_given(f, s, keys),
        answers(c, key_lt::<K>(), keys),
        refused(c, keys),
    ensures
        undefined_on(by_key(key), s),
{
    let (a, b) = choose|a: Option<K>, b: Option<K>|
        keys.contains(a) && keys.contains(b) && #[trigger] call_ensures(c, (&a, &b), None::<bool>);
    let i = choose|i: int| 0 <= i < keys.len() && keys[i] == a;
    let j = choose|j: int| 0 <= j < keys.len() && keys[j] == b;
    assert(s.contains(s[i]) && s.contains(s[j]));
    assert(keys[i] == key(s[i]) && keys[j] == key(s[j]));
    assert(key_lt::<K>()(a, b) is None);
    assert(by_key(key)(s[i], s[j]) is None);
}

/// Where every key was weighed, no element is alone under the key relation.
pub proof fn lemma_weighed_by_key<
    T,
    K: PartialOrd,
    F: FnMut(&T) -> Option<K>,
    C: FnMut(&Option<K>, &Option<K>) -> Option<bool>,
>(
    f: F,
    c: C,
    key: spec_fn(T) -> Option<K>,
    s: Seq<T>,
    keys: Seq<Option<K>>,
    idx: Seq<usize>,
    out: Seq<T>,
    x: T,
)
    requires
        keys_follow(f, key, s),
        keys_given(f, s, keys),
        answers(c, key_lt::<K>(), keys),
        idx.len() == s.len(),
        out.len() == s.len(),
        arrangement(idx, s.len()),
        all_weighed(c, keys, idx, 0, s.len() as int),
        forall|k: int| 0 <= k < s.len() ==> #[trigger] out[k] == s[idx[k] as int],
        out.to_multiset() == s.to_multiset(),
        s.contains(x),
    ensures
        !lone(by_key(key), s, x),
{
    lemma_same_members(s, out);
    let k = choose|k: int| 0 <= k < out.len() && out[k] == x;
    let i = idx[k] as int;
    assert(out[k] == s[i]);
    assert(keys[i] == key(x));
    let lt = key_lt::<K>();
    if lone(by_key(key), s, x) {
        assert forall|y: Option<K>| keys.contains(y) implies (#[trigger] lt(key(x), y)) is None by {
            let j = choose|j: int| 0 <= j < keys.len() && keys[j] == y;
            assert(s.contains(s[j]));
            assert(keys[j] == key(s[j]));
            assert(by_key(key)(x, s[j]) is None);
        }
        assert forall|y: Option<K>| keys.contains(y) implies (#[trigger] lt(y, key(x))) is None by {
            let j = choose|j: int| 0 <= j < keys.len() && keys[j] == y;
            assert(s.contains(s[j]));
            assert(keys[j] == key(s[j]));
            assert(by_key(key)(s[j], x) is None);
        }
        assert(keys.contains(keys[i]));
        lemma_lone_never_weighed(c, lt, keys, key(x));
    }
}

/// A sequence of fewer than two elements is sorted stably as it stands.
pub proof fn lemma_short_is_sorted<T>(s: Seq<T>, lt: spec_fn(T, T) -> Option<bool>)
    requires
        s.len() < 2,
    ensures
        stably_sorted(s, s, lt),
        sorted_by(s, lt),
{
    let order = Seq::new(s.len(), |k: int| k);
    assert(stable_order(order, s, lt));
}

} // verus!
