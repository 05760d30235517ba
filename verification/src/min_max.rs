//! Selecting the least or the greatest of a run of items.

use vstd::prelude::*;
use vstd::std_specs::iter::IteratorSpec;
use vstd::std_specs::cmp::PartialOrdSpec;
use core::cmp::Ordering;
use crate::key::{key_callable, keys_follow};
use crate::{obeys, InvalidOrderError, OrderResult};

verus! {

/// The comparison can be called on any two members of `s`.
pub open spec fn judge_callable<T, F: FnMut(&T, &T) -> Option<Ordering>>(
    compare: F,
    s: Seq<T>,
) -> bool {
    forall|a: T, b: T|
        s.contains(a) && s.contains(b) ==> #[trigger] call_requires(compare, (&a, &b))
}

/// On members of `s` the comparison can only answer as `rel` does.
pub open spec fn judge_follows<T, F: FnMut(&T, &T) -> Option<Ordering>>(
    compare: F,
    rel: spec_fn(T, T) -> Option<Ordering>,
    s: Seq<T>,
) -> bool {
    forall|a: T, b: T, o: Option<Ordering>|
        s.contains(a) && s.contains(b) && #[trigger] call_ensures(compare, (&a, &b), o) ==> o
            == rel(a, b)
}

/// The comparison can decline to answer for some two members of `s`.
pub open spec fn judge_refused<T, F: FnMut(&T, &T) -> Option<Ordering>>(
    compare: F,
    s: Seq<T>,
) -> bool {
    exists|a: T, b: T|
        s.contains(a) && s.contains(b) && #[trigger] call_ensures(
            compare,
            (&a, &b),
            None::<Ordering>,
        )
}

/// What is selected from the items from position `k` on, when `best` is what
/// was selected from those before: each item in turn is compared with the
/// best so far and takes its place if the best stands to it as `target` says.
pub open spec fn select_from<T>(
    items: Seq<T>,
    rel: spec_fn(T, T) -> Option<Ordering>,
    target: Ordering,
    best: T,
    k: int,
) -> OrderResult<Option<T>>
    decreases items.len() - k,
{
    if k < 0 || k >= items.len() {
        Ok(Some(best))
    } else {
        match rel(best, items[k]) {
            None => Err(InvalidOrderError),
            Some(o) => select_from(
                items,
                rel,
                target,
                if o == target {
                    items[k]
                } else {
                    best
                },
                k + 1,
            ),
        }
    }
}

/// What is selected from the items: nothing if there are none, else the first
/// item, replaced by each later item to which the selected one stands as
/// `target` says.
pub open spec fn selection<T>(
    items: Seq<T>,
    rel: spec_fn(T, T) -> Option<Ordering>,
    target: Ordering,
) -> OrderResult<Option<T>> {
    if items.len() == 0 {
        Ok(None)
    } else {
        select_from(items, rel, target, items[0], 1)
    }
}

/// Whether two orderings are the same.
fn same(a: Ordering, b: Ordering) -> (r: bool)
    ensures
        r == (a == b),
{
    match (a, b) {
        (Ordering::Less, Ordering::Less) => true,
        (Ordering::Equal, Ordering::Equal) => true,
        (Ordering::Greater, Ordering::Greater) => true,
        _ => false,
    }
}

/// Goes through the items once and selects one: the first item, replaced by
/// each later item to which the one selected so far stands as `target` says,
/// `Ordering::Greater` for the least item and `Ordering::Less` for the
/// greatest. Of items that are equal the first is kept. Without items there is
/// nothing to select, a single item is selected as it is, and in neither case
/// is anything compared.
pub fn try_select_by<T, I, F>(iter: I, compare: F, target: Ordering) -> (r: OrderResult<
    Option<T>,
>) where I: Iterator<Item = T>, F: FnMut(&T, &T) -> Option<Ordering>
    requires
        iter.obeys_prophetic_iter_laws(),
        iter.decrease() is Some,
        judge_callable(compare, iter.remaining()),
    ensures
        iter.remaining().len() == 0 <==> r == Ok::<Option<T>, InvalidOrderError>(None),
        iter.remaining().len() == 1 ==> r == Ok::<Option<T>, InvalidOrderError>(
            Some(iter.remaining()[0]),
        ),
        r matches Ok(Some(x)) ==> iter.remaining().contains(x),
        r is Err ==> judge_refused(compare, iter.remaining()),
        forall|rel: spec_fn(T, T) -> Option<Ordering>| #[trigger]
            judge_follows(compare, rel, iter.remaining()) ==> r == selection(
                iter.remaining(),
                rel,
                target,
            ),
{
    let mut rest = iter;
    let mut ask = compare;
    let mut best = match rest.next() {
        None => {
            return Ok(None);
        },
        Some(first) => first,
    };
    let ghost mut k: int = 1;
    loop
        invariant
            rest.obeys_prophetic_iter_laws(),
            rest.decrease() is Some,
            1 <= k <= iter.remaining().len(),
            rest.remaining().len() == iter.remaining().len() - k,
            forall|j: int|
                0 <= j < rest.remaining().len() ==> #[trigger] rest.remaining()[j]
                    == iter.remaining()[k + j],
            ask == compare,
            judge_callable(compare, iter.remaining()),
            iter.remaining().contains(best),
            k == 1 ==> best == iter.remaining()[0],
            forall|rel: spec_fn(T, T) -> Option<Ordering>| #[trigger]
                judge_follows(compare, rel, iter.remaining()) ==> select_from(
                    iter.remaining(),
                    rel,
                    target,
                    best,
                    k,
                ) == selection(iter.remaining(), rel, target),
        decreases rest.decrease()->0,
    {
        let ghost prior = best;
        match rest.next() {
            None => {
                return Ok(Some(best));
            },
            Some(item) => {
                assert(item == iter.remaining()[k]);
                assert(iter.remaining().contains(item));
                match ask(&best, &item) {
                    None => {
                        proof {
                            assert forall|rel: spec_fn(T, T) -> Option<Ordering>| #[trigger]
                                judge_follows(compare, rel, iter.remaining()) implies selection(
                                iter.remaining(),
                                rel,
                                target,
                            ) == Err::<Option<T>, InvalidOrderError>(InvalidOrderError) by {
                                assert(rel(best, item) is None);
                            }
                        }
                        return Err(InvalidOrderError);
                    },
                    Some(o) => {
                        if same(o, target) {
                            best = item;
                        }
                        proof {
                            assert forall|rel: spec_fn(T, T) -> Option<Ordering>| #[trigger]
                                judge_follows(compare, rel, iter.remaining()) implies select_from(
                                iter.remaining(),
                                rel,
                                target,
                                best,
                                k + 1,
                            ) == selection(iter.remaining(), rel, target) by {
                                assert(rel(prior, item) == Some(o));
                            }
                            k = k + 1;
                        }
                    },
                }
            },
        }
    }
}

/// How two values stand to each other by the type's own comparison.
pub open spec fn natural_order<T: PartialOrd>() -> spec_fn(T, T) -> Option<Ordering> {
    |a: T, b: T| a.partial_cmp_spec(&b)
}

/// How two keys stand to each other: as the key type says, and with no answer
/// where one of them is missing.
pub open spec fn keys_stand<K: PartialOrd>(ka: Option<K>, kb: Option<K>) -> Option<Ordering> {
    match (ka, kb) {
        (Some(x), Some(y)) => x.partial_cmp_spec(&y),
        _ => None,
    }
}

/// How two items stand to each other by their keys. There is no answer where
/// one of the two has no key.
pub open spec fn key_order<T, K: PartialOrd>(key: spec_fn(T) -> Option<K>) -> spec_fn(
    T,
    T,
) -> Option<Ordering> {
    |a: T, b: T| keys_stand(key(a), key(b))
}

/// `o` is how some keys that the key function can give for `a` and `b` stand
/// to each other.
pub open spec fn key_judged<T, K: PartialOrd, F: FnMut(&T) -> Option<K>>(
    f: F,
    a: T,
    b: T,
    o: Option<Ordering>,
) -> bool {
    exists|ka: Option<K>, kb: Option<K>|
        #![trigger call_ensures(f, (&a,), ka), call_ensures(f, (&b,), kb)]
        call_ensures(f, (&a,), ka) && call_ensures(f, (&b,), kb) && (obeys::<K>() ==> o
            == keys_stand(ka, kb))
}

/// How the first key stands to the second. There is no answer where a key is
/// missing, nor where the key type has none for the two keys.
fn keys_compared<K>(ka: &Option<K>, kb: &Option<K>) -> (o: Option<Ordering>) where K: PartialOrd<K>
    ensures
        ka is None || kb is None ==> o is None,
        obeys::<K>() ==> o == keys_stand(*ka, *kb),
{
    match (ka, kb) {
        (Some(x), Some(y)) => x.partial_cmp(y),
        _ => None,
    }
}

/// Selecting the least or the greatest item that an iterator yields, for items
/// that are only partially ordered.
///
/// The contracts speak of the items that the iterator is going to yield. They
/// ask of the iterator that it keeps to the laws of iterators and has a
/// measure that shrinks with each item, so that going through it ends.
pub trait TryMinMax<T>: Iterator<Item = T> + Sized {
    /// The least item by the type's own comparison; of several the first.
    fn try_min(self) -> (r: OrderResult<Option<T>>) where T: PartialOrd<T>
        requires
            self.obeys_prophetic_iter_laws(),
            self.decrease() is Some,
        ensures
            self.remaining().len() == 0 <==> r == Ok::<Option<T>, InvalidOrderError>(None),
            self.remaining().len() == 1 ==> r == Ok::<Option<T>, InvalidOrderError>(
                Some(self.remaining()[0]),
            ),
            r matches Ok(Some(x)) ==> self.remaining().contains(x),
            obeys::<T>() ==> r == selection(
                self.remaining(),
                natural_order::<T>(),
                Ordering::Greater,
            ),
    {
        let judge = |a: &T, b: &T| -> (o: Option<Ordering>)
            ensures
                obeys::<T>() ==> o == a.partial_cmp_spec(b),
            { a.partial_cmp(b) };
        proof {
            if obeys::<T>() {
                assert(judge_follows(judge, natural_order::<T>(), self.remaining()));
            }
        }
        self.try_select_by(judge, Ordering::Greater)
    }

    /// The least item by `compare`; of several the first.
    fn try_min_by<F>(self, compare: F) -> (r: OrderResult<Option<T>>) where
        F: FnMut(&T, &T) -> Option<Ordering>,

        requires
            self.obeys_prophetic_iter_laws(),
            self.decrease() is Some,
            judge_callable(compare, self.remaining()),
        ensures
            self.remaining().len() == 0 <==> r == Ok::<Option<T>, InvalidOrderError>(None),
            self.remaining().len() == 1 ==> r == Ok::<Option<T>, InvalidOrderError>(
                Some(self.remaining()[0]),
            ),
            r matches Ok(Some(x)) ==> self.remaining().contains(x),
            r is Err ==> judge_refused(compare, self.remaining()),
            forall|rel: spec_fn(T, T) -> Option<Ordering>| #[trigger]
                judge_follows(compare, rel, self.remaining()) ==> r == selection(
                    self.remaining(),
                    rel,
                    Ordering::Greater,
                ),
    {
        self.try_select_by(compare, Ordering::Greater)
    }

    /// The item with the least key; of several the first. Among two or more
    /// items one without a key makes the selection fail.
    fn try_min_by_key<K, F>(self, f: F) -> (r: OrderResult<Option<T>>) where
        F: Fn(&T) -> Option<K>,
        K: PartialOrd<K>,

        requires
            self.obeys_prophetic_iter_laws(),
            self.decrease() is Some,
            key_callable(f, self.remaining()),
        ensures
            self.remaining().len() == 0 <==> r == Ok::<Option<T>, InvalidOrderError>(None),
            self.remaining().len() == 1 ==> r == Ok::<Option<T>, InvalidOrderError>(
                Some(self.remaining()[0]),
            ),
            r matches Ok(Some(x)) ==> self.remaining().contains(x),
            forall|key: spec_fn(T) -> Option<K>|
                #[trigger] keys_follow(f, key, self.remaining()) && obeys::<K>() ==> r
                    == selection(self.remaining(), key_order(key), Ordering::Greater),
            forall|key: spec_fn(T) -> Option<K>, m: int|
                #[trigger] keys_follow(f, key, self.remaining()) && obeys::<K>()
                    && self.remaining().len() >= 2 && 0 <= m < self.remaining().len() && (
                #[trigger] key(self.remaining()[m])) is None ==> r is Err,
    {
        let g = &f;
        let judge = |a: &T, b: &T| -> (o: Option<Ordering>)
            requires
                call_requires(g, (a,)),
                call_requires(g, (b,)),
            ensures
                key_judged(g, *a, *b, o),
            {
                let ka = g(a);
                let kb = g(b);
                keys_compared(&ka, &kb)
            };
        proof {
            lemma_key_judge_follows(f, judge, self.remaining());
            assert forall|key: spec_fn(T) -> Option<K>, m: int|
                #[trigger] keys_follow(f, key, self.remaining()) && obeys::<K>()
                    && self.remaining().len() >= 2 && 0 <= m < self.remaining().len() && (
                #[trigger] key(self.remaining()[m])) is None implies selection(
                self.remaining(),
                key_order(key),
                Ordering::Greater,
            ) is Err by {
                lemma_keyless_is_unjudged(key, self.remaining(), self.remaining()[m]);
                lemma_selection_fails_on_lone(
                    self.remaining(),
                    key_order(key),
                    Ordering::Greater,
                    m,
                );
            }
        }
        self.try_select_by(judge, Ordering::Greater)
    }

    /// The greatest item by the type's own comparison; of several the first.
    fn try_max(self) -> (r: OrderResult<Option<T>>) where T: PartialOrd<T>
        requires
            self.obeys_prophetic_iter_laws(),
            self.decrease() is Some,
        ensures
            self.remaining().len() == 0 <==> r == Ok::<Option<T>, InvalidOrderError>(None),
            self.remaining().len() == 1 ==> r == Ok::<Option<T>, InvalidOrderError>(
                Some(self.remaining()[0]),
            ),
            r matches Ok(Some(x)) ==> self.remaining().contains(x),
            obeys::<T>() ==> r == selection(self.remaining(), natural_order::<T>(), Ordering::Less),
    {
        let judge = |a: &T, b: &T| -> (o: Option<Ordering>)
            ensures
                obeys::<T>() ==> o == a.partial_cmp_spec(b),
            { a.partial_cmp(b) };
        proof {
            if obeys::<T>() {
                assert(judge_follows(judge, natural_order::<T>(), self.remaining()));
            }
        }
        self.try_select_by(judge, Ordering::Less)
    }

    /// The greatest item by `compare`; of several the first.
    fn try_max_by<F>(self, compare: F) -> (r: OrderResult<Option<T>>) where
        F: FnMut(&T, &T) -> Option<Ordering>,

        requires
            self.obeys_prophetic_iter_laws(),
            self.decrease() is Some,
            judge_callable(compare, self.remaining()),
        ensures
            self.remaining().len() == 0 <==> r == Ok::<Option<T>, InvalidOrderError>(None),
            self.remaining().len() == 1 ==> r == Ok::<Option<T>, InvalidOrderError>(
                Some(self.remaining()[0]),
            ),
            r matches Ok(Some(x)) ==> self.remaining().contains(x),
            r is Err ==> judge_refused(compare, self.remaining()),
            forall|rel: spec_fn(T, T) -> Option<Ordering>| #[trigger]
                judge_follows(compare, rel, self.remaining()) ==> r == selection(
                    self.remaining(),
                    rel,
                    Ordering::Less,
                ),
    {
        self.try_select_by(compare, Ordering::Less)
    }

    /// The item with the greatest key; of several the first. Among two or more
    /// items one without a key makes the selection fail.
    fn try_max_by_key<K, F>(self, f: F) -> (r: OrderResult<Option<T>>) where
        F: Fn(&T) -> Option<K>,
        K: PartialOrd<K>,

        requires
            self.obeys_prophetic_iter_laws(),
            self.decrease() is Some,
            key_callable(f, self.remaining()),
        ensures
            self.remaining().len() == 0 <==> r == Ok::<Option<T>, InvalidOrderError>(None),
            self.remaining().len() == 1 ==> r == Ok::<Option<T>, InvalidOrderError>(
                Some(self.remaining()[0]),
            ),
            r matches Ok(Some(x)) ==> self.remaining().contains(x),
            forall|key: spec_fn(T) -> Option<K>|
                #[trigger] keys_follow(f, key, self.remaining()) && obeys::<K>() ==> r
                    == selection(self.remaining(), key_order(key), Ordering::Less),
            forall|key: spec_fn(T) -> Option<K>, m: int|
                #[trigger] keys_follow(f, key, self.remaining()) && obeys::<K>()
                    && self.remaining().len() >= 2 && 0 <= m < self.remaining().len() && (
                #[trigger] key(self.remaining()[m])) is None ==> r is Err,
    {
        let g = &f;
        let judge = |a: &T, b: &T| -> (o: Option<Ordering>)
            requires
                call_requires(g, (a,)),
                call_requires(g, (b,)),
            ensures
                key_judged(g, *a, *b, o),
            {
                let ka = g(a);
                let kb = g(b);
                keys_compared(&ka, &kb)
            };
        proof {
            lemma_key_judge_follows(f, judge, self.remaining());
            assert forall|key: spec_fn(T) -> Option<K>, m: int|
                #[trigger] keys_follow(f, key, self.remaining()) && obeys::<K>()
                    && self.remaining().len() >= 2 && 0 <= m < self.remaining().len() && (
                #[trigger] key(self.remaining()[m])) is None implies selection(
                self.remaining(),
                key_order(key),
                Ordering::Less,
            ) is Err by {
                lemma_keyless_is_unjudged(key, self.remaining(), self.remaining()[m]);
                lemma_selection_fails_on_lone(
                    self.remaining(),
                    key_order(key),
                    Ordering::Less,
                    m,
                );
            }
        }
        self.try_select_by(judge, Ordering::Less)
    }

    /// Selects by `compare` the item to which no other stands as `target`
    /// says: `Ordering::Greater` selects the least, `Ordering::Less` the
    /// greatest.
    fn try_select_by<F>(self, compare: F, target: Ordering) -> (r: OrderResult<Option<T>>) where
        F: FnMut(&T, &T) -> Option<Ordering>,

        requires
            self.obeys_prophetic_iter_laws(),
            self.decrease() is Some,
            judge_callable(compare, self.remaining()),
        ensures
            self.remaining().len() == 0 <==> r == Ok::<Option<T>, InvalidOrderError>(None),
            self.remaining().len() == 1 ==> r == Ok::<Option<T>, InvalidOrderError>(
                Some(self.remaining()[0]),
            ),
            r matches Ok(Some(x)) ==> self.remaining().contains(x),
            r is Err ==> judge_refused(compare, self.remaining()),
            forall|rel: spec_fn(T, T) -> Option<Ordering>| #[trigger]
                judge_follows(compare, rel, self.remaining()) ==> r == selection(
                    self.remaining(),
                    rel,
                    target,
                ),
    ;
}

impl<T, Iter> TryMinMax<T> for Iter where Iter: Iterator<Item = T> {
    fn try_select_by<F>(self, compare: F, target: Ordering) -> (r: OrderResult<Option<T>>) where
        F: FnMut(&T, &T) -> Option<Ordering>,
     {
        try_select_by(self, compare, target)
    }
}

/// A comparison whose every answer is how two keys stand to each other
/// follows the order by key.
proof fn lemma_key_judge_follows<
    T,
    K: PartialOrd,
    F: FnMut(&T) -> Option<K>,
    C: FnMut(&T, &T) -> Option<Ordering>,
>(f: F, judge: C, s: Seq<T>)
    requires
        forall|a: T, b: T, o: Option<Ordering>| #[trigger]
            call_ensures(judge, (&a, &b), o) ==> key_judged(f, a, b, o),
    ensures
        forall|key: spec_fn(T) -> Option<K>|
            #[trigger] keys_follow(f, key, s) && obeys::<K>() ==> judge_follows(
                judge,
                key_order(key),
                s,
            ),
{
    assert forall|key: spec_fn(T) -> Option<K>|
        #[trigger] keys_follow(f, key, s) && obeys::<K>() implies judge_follows(
        judge,
        key_order(key),
        s,
    ) by {
        assert forall|a: T, b: T, o: Option<Ordering>|
            s.contains(a) && s.contains(b) && #[trigger] call_ensures(
                judge,
                (&a, &b),
                o,
            ) implies o == key_order(key)(a, b) by {
            assert(key_judged(f, a, b, o));
            let (ka, kb) = choose|ka: Option<K>, kb: Option<K>|
                #![trigger call_ensures(f, (&a,), ka), call_ensures(f, (&b,), kb)]
                call_ensures(f, (&a,), ka) && call_ensures(f, (&b,), kb) && (obeys::<K>() ==> o
                    == keys_stand(ka, kb));
            assert(ka == key(a) && kb == key(b));
        }
    }
}

/// `rel` has no answer about `x` and any member of `s`, whichever is asked
/// first.
pub open spec fn unjudged<T>(rel: spec_fn(T, T) -> Option<Ordering>, s: Seq<T>, x: T) -> bool {
    &&& forall|y: T| s.contains(y) ==> (#[trigger] rel(x, y)) is None
    &&& forall|y: T| s.contains(y) ==> (#[trigger] rel(y, x)) is None
}

/// About an item without a key the order by key has no answer.
pub proof fn lemma_keyless_is_unjudged<T, K: PartialOrd>(
    key: spec_fn(T) -> Option<K>,
    s: Seq<T>,
    x: T,
)
    requires
        key(x) is None,
    ensures
        unjudged(key_order(key), s, x),
{
    let rel = key_order(key);
    assert forall|y: T| s.contains(y) implies (#[trigger] rel(x, y)) is None by {}
    assert forall|y: T| s.contains(y) implies (#[trigger] rel(y, x)) is None by {}
}

/// A selection that has yet to come to an item about which there is no answer
/// fails.
proof fn lemma_select_from_fails<T>(
    items: Seq<T>,
    rel: spec_fn(T, T) -> Option<Ordering>,
    target: Ordering,
    best: T,
    k: int,
    m: int,
)
    requires
        0 <= k <= m < items.len(),
        items.contains(best),
        unjudged(rel, items, items[m]),
    ensures
        select_from(items, rel, target, best, k) is Err,
    decreases items.len() - k,
{
    assert(items.contains(items[k]));
    assert(items.contains(items[m]));
    if k == m {
        assert(rel(best, items[m]) is None);
    } else {
        match rel(best, items[k]) {
            None => {},
            Some(o) => {
                let next = if o == target {
                    items[k]
                } else {
                    best
                };
                lemma_select_from_fails(items, rel, target, next, k + 1, m);
            },
        }
    }
}

/// Among two or more items, one about which there is no answer at all makes
/// the selection fail.
pub proof fn lemma_selection_fails_on_lone<T>(
    items: Seq<T>,
    rel: spec_fn(T, T) -> Option<Ordering>,
    target: Ordering,
    m: int,
)
    requires
        items.len() >= 2,
        0 <= m < items.len(),
        unjudged(rel, items, items[m]),
    ensures
        selection(items, rel, target) is Err,
{
    assert(items.contains(items[0]) && items.contains(items[1]));
    if m == 0 {
        assert(rel(items[0], items[1]) is None);
    } else {
        lemma_select_from_fails(items, rel, target, items[0], 1, m);
    }
}

/// Item `b` takes the place of item `a` in a selection: `a` stands to `b` as
/// the target says.
pub open spec fn beats<T>(
    rel: spec_fn(T, T) -> Option<Ordering>,
    target: Ordering,
    a: T,
    b: T,
) -> bool {
    rel(a, b) == Some(target)
}

/// `rel` has an answer for any two members of `s`, and taking another's
/// place is a strict weak order on them.
pub open spec fn ranks<T>(rel: spec_fn(T, T) -> Option<Ordering>, target: Ordering, s: Seq<T>) -> bool {
    &&& forall|a: T, b: T| s.contains(a) && s.contains(b) ==> (#[trigger] rel(a, b)) is Some
    &&& forall|a: T| s.contains(a) ==> !#[trigger] beats(rel, target, a, a)
    &&& forall|a: T, b: T, c: T|
        s.contains(a) && s.contains(b) && s.contains(c) && #[trigger] beats(rel, target, a, b)
            && #[trigger] beats(rel, target, b, c) ==> beats(rel, target, a, c)
    &&& forall|a: T, b: T, c: T|
        s.contains(a) && s.contains(b) && s.contains(c) && !#[trigger] beats(rel, target, a, b)
            && !#[trigger] beats(rel, target, b, c) ==> !beats(rel, target, a, c)
}

/// The item at `m` is the first that no item can take the place of: every
/// item before it gives way to it, and it gives way to none.
pub open spec fn first_extreme<T>(
    items: Seq<T>,
    rel: spec_fn(T, T) -> Option<Ordering>,
    target: Ordering,
    m: int,
) -> bool {
    &&& 0 <= m < items.len()
    &&& forall|j: int| 0 <= j < items.len() ==> !beats(rel, target, items[m], #[trigger] items[j])
    &&& forall|j: int| 0 <= j < m ==> beats(rel, target, #[trigger] items[j], items[m])
}

/// A selection that holds the first extreme item of those it has seen ends
/// with the first extreme item of all.
proof fn lemma_select_from_extreme<T>(
    items: Seq<T>,
    rel: spec_fn(T, T) -> Option<Ordering>,
    target: Ordering,
    b: int,
    k: int,
) -> (m: int)
    requires
        0 <= b < k <= items.len(),
        ranks(rel, target, items),
        forall|j: int| 0 <= j < k ==> !beats(rel, target, items[b], #[trigger] items[j]),
        forall|j: int| 0 <= j < b ==> beats(rel, target, #[trigger] items[j], items[b]),
    ensures
        first_extreme(items, rel, target, m),
        select_from(items, rel, target, items[b], k) == Ok::<Option<T>, InvalidOrderError>(
            Some(items[m]),
        ),
    decreases items.len() - k,
{
    if k >= items.len() {
        b
    } else {
        let best = items[b];
        let item = items[k];
        assert(items.contains(best) && items.contains(item));
        assert(rel(best, item) is Some);
        if beats(rel, target, best, item) {
            assert forall|j: int| 0 <= j < k + 1 implies !beats(
                rel,
                target,
                item,
                #[trigger] items[j],
            ) by {
                assert(items.contains(items[j]));
                if j < k {
                    assert(!beats(rel, target, best, items[j]));
                    if beats(rel, target, item, items[j]) {
                        assert(beats(rel, target, best, items[j]));
                    }
                }
            }
            assert forall|j: int| 0 <= j < k implies beats(
                rel,
                target,
                #[trigger] items[j],
                item,
            ) by {
                assert(items.contains(items[j]));
                assert(!beats(rel, target, best, items[j]));
                if !beats(rel, target, items[j], item) {
                    assert(!beats(rel, target, best, item));
                }
            }
            lemma_select_from_extreme(items, rel, target, k, k + 1)
        } else {
            lemma_select_from_extreme(items, rel, target, b, k + 1)
        }
    }
}

/// Where the relation ranks the items, what is selected is the first item
/// that gives way to none: with `Ordering::Greater` as the target the first of
/// the least items, with `Ordering::Less` the first of the greatest.
pub proof fn lemma_selection_is_first_extreme<T>(
    items: Seq<T>,
    rel: spec_fn(T, T) -> Option<Ordering>,
    target: Ordering,
) -> (m: int)
    requires
        items.len() > 0,
        ranks(rel, target, items),
    ensures
        first_extreme(items, rel, target, m),
        selection(items, rel, target) == Ok::<Option<T>, InvalidOrderError>(Some(items[m])),
{
    assert(items.contains(items[0]));
    lemma_select_from_extreme(items, rel, target, 0, 1)
}

} // verus!
