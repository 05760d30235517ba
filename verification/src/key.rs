//! Comparing elements by a key.
//!
//! A key function gives for an element its key, or none. Two elements that
//! both have a key are compared as the key type compares the keys. For an
//! element without a key there is no answer, about whatever other element.

use vstd::prelude::*;
use crate::order::{answers, lone};
use crate::{natural, obeys, ord_as_cmp};

verus! {

/// The key function can be called on every member of `s`.
pub open spec fn key_callable<T, K, F: FnMut(&T) -> Option<K>>(f: F, s: Seq<T>) -> bool {
    forall|a: T| s.contains(a) ==> #[trigger] call_requires(f, (&a,))
}

/// On members of `s` the key function can only give the key that `key` gives.
pub open spec fn keys_follow<T, K, F: FnMut(&T) -> Option<K>>(
    f: F,
    key: spec_fn(T) -> Option<K>,
    s: Seq<T>,
) -> bool {
    forall|a: T, k: Option<K>| s.contains(a) && #[trigger] call_ensures(f, (&a,), k) ==> k == key(a)
}

/// The relation of keys: what the key type's own relation says of two keys,
/// and no answer where one of them is missing.
pub open spec fn key_lt<K: PartialOrd>() -> spec_fn(Option<K>, Option<K>) -> Option<bool> {
    |ka: Option<K>, kb: Option<K>|
        match (ka, kb) {
            (Some(x), Some(y)) => natural::<K>()(x, y),
            _ => None,
        }
}

/// The relation that compares two elements by their keys. It has no answer
/// where one of the two has no key.
pub open spec fn by_key<T, K: PartialOrd>(key: spec_fn(T) -> Option<K>) -> spec_fn(T, T) -> Option<
    bool,
> {
    |a: T, b: T| key_lt::<K>()(key(a), key(b))
}

/// `r` is what comparing some keys that the key function can give for `a` and
/// `b` answers.
pub open spec fn keyed<T, K: PartialOrd, F: FnMut(&T) -> Option<K>>(
    f: F,
    a: T,
    b: T,
    r: Option<bool>,
) -> bool {
    exists|ka: Option<K>, kb: Option<K>|
        #![trigger call_ensures(f, (&a,), ka), call_ensures(f, (&b,), kb)]
        call_ensures(f, (&a,), ka) && call_ensures(f, (&b,), kb) && (obeys::<K>() ==> r
            == key_lt::<K>()(ka, kb))
}

/// Whether the first key is less than the second. There is no answer where a
/// key is missing, nor where the key type has none for the two keys.
pub fn key_less<K>(ka: &Option<K>, kb: &Option<K>) -> (r: Option<bool>) where K: PartialOrd<K>
    ensures
        ka is None || kb is None ==> r is None,
        obeys::<K>() ==> r == key_lt::<K>()(*ka, *kb),
{
    match (ka, kb) {
        (Some(x), Some(y)) => ord_as_cmp(x, y),
        _ => None,
    }
}

/// A keyed answer about two members is the answer of the relation by key.
pub proof fn lemma_keyed_follows<T, K: PartialOrd, F: FnMut(&T) -> Option<K>>(
    f: F,
    key: spec_fn(T) -> Option<K>,
    s: Seq<T>,
    a: T,
    b: T,
    r: Option<bool>,
)
    requires
        keys_follow(f, key, s),
        obeys::<K>(),
        s.contains(a),
        s.contains(b),
        keyed(f, a, b, r),
    ensures
        r == by_key(key)(a, b),
{
    let (ka, kb) = choose|ka: Option<K>, kb: Option<K>|
        #![trigger call_ensures(f, (&a,), ka), call_ensures(f, (&b,), kb)]
        call_ensures(f, (&a,), ka) && call_ensures(f, (&b,), kb) && (obeys::<K>() ==> r
            == key_lt::<K>()(ka, kb));
    assert(ka == key(a) && kb == key(b));
}

/// A comparison whose every answer is keyed follows the relation by key of
/// whatever keys the key function follows.
pub proof fn lemma_keyed_answers<
    T,
    K: PartialOrd,
    F: FnMut(&T) -> Option<K>,
    C: FnMut(&T, &T) -> Option<bool>,
>(f: F, compare: C, s: Seq<T>)
    requires
        forall|a: T, b: T, r: Option<bool>| #[trigger]
            call_ensures(compare, (&a, &b), r) ==> keyed(f, a, b, r),
    ensures
        forall|key: spec_fn(T) -> Option<K>|
            #[trigger] keys_follow(f, key, s) && obeys::<K>() ==> answers(
                compare,
                by_key(key),
                s,
            ),
{
    assert forall|key: spec_fn(T) -> Option<K>|
        #[trigger] keys_follow(f, key, s) && obeys::<K>() implies answers(
        compare,
        by_key(key),
        s,
    ) by {
        assert forall|a: T, b: T, r: Option<bool>|
            s.contains(a) && s.contains(b) && #[trigger] call_ensures(
                compare,
                (&a, &b),
                r,
            ) implies r == by_key(key)(a, b) by {
            lemma_keyed_follows(f, key, s, a, b, r);
        }
    }
}

/// About an element without a key the relation by key has no answer.
pub proof fn lemma_keyless_is_lone<T, K: PartialOrd>(key: spec_fn(T) -> Option<K>, s: Seq<T>, x: T)
    requires
        key(x) is None,
    ensures
        lone(by_key(key), s, x),
{
    let lt = by_key(key);
    assert forall|y: T| s.contains(y) implies (#[trigger] lt(x, y)) is None by {}
    assert forall|y: T| s.contains(y) implies (#[trigger] lt(y, x)) is None by {}
}

} // verus!
