//! Sorting, and telling whether a sequence is sorted.

use vstd::prelude::*;
use crate::order::{
    answers, callable_on, lemma_all_weighed_none_lone, lemma_refused_is_undefined, lone, orders,
    refused, sorted_by, stably_sorted, total_on, undefined_on,
};
use crate::key::{
    by_key, key_callable, key_less, key_lt, keyed, keys_follow, lemma_keyed_answers,
    lemma_keyless_is_lone,
};
use crate::sort::arrange::arrange;
use crate::sort::cached::{
    keys_of, lemma_ranked_by_key, lemma_refused_by_key, lemma_short_is_sorted, lemma_weighed_by_key,
};
use crate::sort::sortedness::{
    askable, asked, lemma_sorted_is_found_sorted, sortedness, stopped_at, try_is_sorted_by,
};
use crate::sort::mergesort::sorted_positions;
use crate::{
    comparable_on, lawful, lemma_comparable_is_total, natural, obeys, ord_as_cmp, InvalidOrderError,
    OrderResult,
};

pub mod arrange;
pub mod cached;
pub mod sortedness;
pub mod mergesort;
pub mod quicksort;
pub mod rank;

verus! {

/// Sorting for sequences whose elements are only partially ordered.
pub trait TrySort<T>: View<V = Seq<T>> {
    /// Sorts stably by the type's own comparison. Elements of which any two
    /// can be compared are put in ascending order.
    fn try_sort(&mut self) -> (r: OrderResult<()>) where T: PartialOrd<T>
        ensures
            final(self)@.to_multiset() == old(self)@.to_multiset(),
            old(self)@.len() < 2 ==> r is Ok,
            r is Err ==> final(self)@ == old(self)@,
            obeys::<T>() && r is Err ==> undefined_on(natural::<T>(), old(self)@),
            obeys::<T>() && total_on(natural::<T>(), old(self)@) ==> r is Ok && stably_sorted(
                final(self)@,
                old(self)@,
                natural::<T>(),
            ) && sorted_by(final(self)@, natural::<T>()),
            lawful::<T>() && comparable_on(old(self)@) ==> r is Ok && stably_sorted(
                final(self)@,
                old(self)@,
                natural::<T>(),
            ) && sorted_by(final(self)@, natural::<T>()),
            forall|x: T|
                obeys::<T>() && old(self)@.len() >= 2 && old(self)@.contains(x) && #[trigger] lone(
                    natural::<T>(),
                    old(self)@,
                    x,
                ) ==> r is Err,
    {
        let ghost s = self@;
        let r = self.try_sort_by(ord_as_cmp);
        proof {
            if lawful::<T>() && comparable_on(s) {
                lemma_comparable_is_total(s);
            }
            if obeys::<T>() {
                assert(answers(ord_as_cmp::<T>, natural::<T>(), s));
                if total_on(natural::<T>(), s) {
                    assert(orders(ord_as_cmp::<T>, natural::<T>(), s));
                }
                if r is Err {
                    lemma_refused_is_undefined(ord_as_cmp::<T>, natural::<T>(), s);
                }
            }
        }
        r
    }

    /// Sorts stably by `compare`, which says whether its first argument is
    /// less than its second.
    ///
    /// The elements are kept whatever the comparison answers. When it declines
    /// the sequence is left as it was. When it follows a relation that orders
    /// the elements, they end up in ascending order, equal ones in the order in
    /// which they stood. An element about which the comparison has no answer
    /// at all makes the sort fail.
    fn try_sort_by<F>(&mut self, compare: F) -> (r: OrderResult<()>) where
        F: FnMut(&T, &T) -> Option<bool>,

        requires
            callable_on(compare, old(self)@),
        ensures
            final(self)@.to_multiset() == old(self)@.to_multiset(),
            old(self)@.len() < 2 ==> r is Ok,
            r is Err ==> refused(compare, old(self)@) && final(self)@ == old(self)@,
            forall|lt: spec_fn(T, T) -> Option<bool>| #[trigger]
                orders(compare, lt, old(self)@) ==> r is Ok && stably_sorted(
                    final(self)@,
                    old(self)@,
                    lt,
                ) && sorted_by(final(self)@, lt),
            forall|lt: spec_fn(T, T) -> Option<bool>, x: T|
                #[trigger] answers(compare, lt, old(self)@) && old(self)@.len() >= 2 && old(
                    self,
                )@.contains(x) && #[trigger] lone(lt, old(self)@, x) ==> r is Err,
    ;

    /// Sorts by the type's own comparison, without keeping the order of equal
    /// elements.
    fn try_sort_unstable(&mut self) -> (r: OrderResult<()>) where T: PartialOrd<T>
        ensures
            final(self)@.to_multiset() == old(self)@.to_multiset(),
            old(self)@.len() < 2 ==> r is Ok,
            obeys::<T>() && r is Err ==> undefined_on(natural::<T>(), old(self)@),
            obeys::<T>() && total_on(natural::<T>(), old(self)@) ==> r is Ok && sorted_by(
                final(self)@,
                natural::<T>(),
            ),
            lawful::<T>() && comparable_on(old(self)@) ==> r is Ok && sorted_by(
                final(self)@,
                natural::<T>(),
            ),
            forall|x: T|
                obeys::<T>() && old(self)@.len() >= 2 && old(self)@.contains(x) && #[trigger] lone(
                    natural::<T>(),
                    old(self)@,
                    x,
                ) ==> r is Err,
    {
        let ghost s = self@;
        let r = self.try_sort_unstable_by(ord_as_cmp);
        proof {
            if lawful::<T>() && comparable_on(s) {
                lemma_comparable_is_total(s);
            }
            if obeys::<T>() {
                assert(answers(ord_as_cmp::<T>, natural::<T>(), s));
                if total_on(natural::<T>(), s) {
                    assert(orders(ord_as_cmp::<T>, natural::<T>(), s));
                }
                if r is Err {
                    lemma_refused_is_undefined(ord_as_cmp::<T>, natural::<T>(), s);
                }
            }
        }
        r
    }

    /// Sorts by `compare`, in place and without keeping the order of equal
    /// elements.
    ///
    /// The elements are kept whatever the comparison answers, also when it
    /// declines. When it follows a relation that orders the elements, they end
    /// up in ascending order. An element about which the comparison has no
    /// answer at all makes the sort fail.
    fn try_sort_unstable_by<F>(&mut self, compare: F) -> (r: OrderResult<()>) where
        F: FnMut(&T, &T) -> Option<bool>,

        requires
            callable_on(compare, old(self)@),
        ensures
            final(self)@.to_multiset() == old(self)@.to_multiset(),
            old(self)@.len() < 2 ==> r is Ok,
            r is Err ==> refused(compare, old(self)@),
            forall|lt: spec_fn(T, T) -> Option<bool>| #[trigger]
                orders(compare, lt, old(self)@) ==> r is Ok && sorted_by(final(self)@, lt),
            forall|lt: spec_fn(T, T) -> Option<bool>, x: T|
                #[trigger] answers(compare, lt, old(self)@) && old(self)@.len() >= 2 && old(
                    self,
                )@.contains(x) && #[trigger] lone(lt, old(self)@, x) ==> r is Err,
    ;

    /// Sorts stably by the keys that `f` gives. Among two or more elements one
    /// without a key makes the sort fail.
    fn try_sort_by_key<K, F>(&mut self, f: F) -> (r: OrderResult<()>) where
        F: Fn(&T) -> Option<K>,
        K: PartialOrd<K>,

        requires
            key_callable(f, old(self)@),
        ensures
            final(self)@.to_multiset() == old(self)@.to_multiset(),
            old(self)@.len() < 2 ==> r is Ok,
            r is Err ==> final(self)@ == old(self)@,
            forall|key: spec_fn(T) -> Option<K>|
                #[trigger] keys_follow(f, key, old(self)@) && obeys::<K>() && r is Err
                    ==> undefined_on(by_key(key), old(self)@),
            forall|key: spec_fn(T) -> Option<K>|
                #[trigger] keys_follow(f, key, old(self)@) && obeys::<K>() && total_on(
                    by_key(key),
                    old(self)@,
                ) ==> r is Ok && stably_sorted(final(self)@, old(self)@, by_key(key)) && sorted_by(
                    final(self)@,
                    by_key(key),
                ),
            forall|key: spec_fn(T) -> Option<K>, x: T|
                #[trigger] keys_follow(f, key, old(self)@) && obeys::<K>() && old(self)@.len() >= 2
                    && old(self)@.contains(x) && #[trigger] lone(by_key(key), old(self)@, x)
                    ==> r is Err,
            forall|key: spec_fn(T) -> Option<K>, x: T|
                #[trigger] keys_follow(f, key, old(self)@) && obeys::<K>() && old(self)@.len() >= 2
                    && old(self)@.contains(x) && (#[trigger] key(x)) is None ==> r is Err,
    {
        let ghost s = self@;
        let g = &f;
        let less_by_key = |a: &T, b: &T| -> (r: Option<bool>)
            requires
                call_requires(g, (a,)),
                call_requires(g, (b,)),
            ensures
                keyed(g, *a, *b, r),
            {
                let ka = g(a);
                let kb = g(b);
                key_less(&ka, &kb)
            };
        let r = self.try_sort_by(less_by_key);
        proof {
            lemma_keyed_answers(f, less_by_key, s);
            assert forall|key: spec_fn(T) -> Option<K>, x: T|
                #[trigger] keys_follow(f, key, s) && obeys::<K>() && s.len() >= 2 && s.contains(x)
                    && (#[trigger] key(x)) is None implies lone(by_key(key), s, x) by {
                lemma_keyless_is_lone(key, s, x);
            }
            assert forall|key: spec_fn(T) -> Option<K>|
                #[trigger] keys_follow(f, key, s) && obeys::<K>() && r is Err implies undefined_on(
                by_key(key),
                s,
            ) by {
                lemma_refused_is_undefined(less_by_key, by_key(key), s);
            }
            assert forall|key: spec_fn(T) -> Option<K>|
                #[trigger] keys_follow(f, key, s) && obeys::<K>() && total_on(
                    by_key(key),
                    s,
                ) implies orders(less_by_key, by_key(key), s) by {}
        }
        r
    }

    /// Sorts stably by the keys that `f` gives, calling `f` once for each
    /// element; a sequence of fewer than two elements is left alone, and `f`
    /// is not called. Among two or more elements one without a key makes the
    /// sort fail.
    fn try_sort_by_cached_key<K, F>(&mut self, f: F) -> (r: OrderResult<()>) where
        F: FnMut(&T) -> Option<K>,
        K: PartialOrd<K>,

        requires
            key_callable(f, old(self)@),
        ensures
            final(self)@.to_multiset() == old(self)@.to_multiset(),
            old(self)@.len() < 2 ==> r is Ok,
            r is Err ==> final(self)@ == old(self)@,
            forall|key: spec_fn(T) -> Option<K>|
                #[trigger] keys_follow(f, key, old(self)@) && obeys::<K>() && r is Err
                    ==> undefined_on(by_key(key), old(self)@),
            forall|key: spec_fn(T) -> Option<K>|
                #[trigger] keys_follow(f, key, old(self)@) && obeys::<K>() && total_on(
                    by_key(key),
                    old(self)@,
                ) ==> r is Ok && stably_sorted(final(self)@, old(self)@, by_key(key)) && sorted_by(
                    final(self)@,
                    by_key(key),
                ),
            forall|key: spec_fn(T) -> Option<K>, x: T|
                #[trigger] keys_follow(f, key, old(self)@) && obeys::<K>() && old(self)@.len() >= 2
                    && old(self)@.contains(x) && #[trigger] lone(by_key(key), old(self)@, x)
                    ==> r is Err,
            forall|key: spec_fn(T) -> Option<K>, x: T|
                #[trigger] keys_follow(f, key, old(self)@) && obeys::<K>() && old(self)@.len() >= 2
                    && old(self)@.contains(x) && (#[trigger] key(x)) is None ==> r is Err,
    ;

    /// Sorts by the keys that `f` gives, without keeping the order of
    /// elements with equal keys. Among two or more elements one without a key
    /// makes the sort fail.
    fn try_sort_unstable_by_key<K, F>(&mut self, f: F) -> (r: OrderResult<()>) where
        F: Fn(&T) -> Option<K>,
        K: PartialOrd<K>,

        requires
            key_callable(f, old(self)@),
        ensures
            final(self)@.to_multiset() == old(self)@.to_multiset(),
            old(self)@.len() < 2 ==> r is Ok,
            forall|key: spec_fn(T) -> Option<K>|
                #[trigger] keys_follow(f, key, old(self)@) && obeys::<K>() && r is Err
                    ==> undefined_on(by_key(key), old(self)@),
            forall|key: spec_fn(T) -> Option<K>|
                #[trigger] keys_follow(f, key, old(self)@) && obeys::<K>() && total_on(
                    by_key(key),
                    old(self)@,
                ) ==> r is Ok && sorted_by(final(self)@, by_key(key)),
            forall|key: spec_fn(T) -> Option<K>, x: T|
                #[trigger] keys_follow(f, key, old(self)@) && obeys::<K>() && old(self)@.len() >= 2
                    && old(self)@.contains(x) && #[trigger] lone(by_key(key), old(self)@, x)
                    ==> r is Err,
            forall|key: spec_fn(T) -> Option<K>, x: T|
                #[trigger] keys_follow(f, key, old(self)@) && obeys::<K>() && old(self)@.len() >= 2
                    && old(self)@.contains(x) && (#[trigger] key(x)) is None ==> r is Err,
    {
        let ghost s = self@;
        let g = &f;
        let less_by_key = |a: &T, b: &T| -> (r: Option<bool>)
            requires
                call_requires(g, (a,)),
                call_requires(g, (b,)),
            ensures
                keyed(g, *a, *b, r),
            {
                let ka = g(a);
                let kb = g(b);
                key_less(&ka, &kb)
            };
        let r = self.try_sort_unstable_by(less_by_key);
        proof {
            lemma_keyed_answers(f, less_by_key, s);
            assert forall|key: spec_fn(T) -> Option<K>, x: T|
                #[trigger] keys_follow(f, key, s) && obeys::<K>() && s.len() >= 2 && s.contains(x)
                    && (#[trigger] key(x)) is None implies lone(by_key(key), s, x) by {
                lemma_keyless_is_lone(key, s, x);
            }
            assert forall|key: spec_fn(T) -> Option<K>|
                #[trigger] keys_follow(f, key, s) && obeys::<K>() && r is Err implies undefined_on(
                by_key(key),
                s,
            ) by {
                lemma_refused_is_undefined(less_by_key, by_key(key), s);
            }
            assert forall|key: spec_fn(T) -> Option<K>|
                #[trigger] keys_follow(f, key, s) && obeys::<K>() && total_on(
                    by_key(key),
                    s,
                ) implies orders(less_by_key, by_key(key), s) by {}
        }
        r
    }

    /// Says whether the sequence is sorted by the type's own comparison.
    fn try_is_sorted(&self) -> (r: OrderResult<bool>) where T: PartialOrd<T>
        ensures
            obeys::<T>() ==> r == sortedness(self@, natural::<T>()),
            obeys::<T>() && sorted_by(self@, natural::<T>()) ==> r == Ok::<bool, InvalidOrderError>(
                true,
            ),
            self@.len() < 2 ==> r == Ok::<bool, InvalidOrderError>(true),
    {
        let r = self.try_is_sorted_by(ord_as_cmp);
        proof {
            if obeys::<T>() {
                assert(answers(ord_as_cmp::<T>, natural::<T>(), self@));
                if sorted_by(self@, natural::<T>()) {
                    lemma_sorted_is_found_sorted(self@, natural::<T>());
                }
            }
        }
        r
    }

    /// Says whether the sequence is sorted by `compare`: whether no element is
    /// followed by one that is less.
    ///
    /// The pairs of neighbours are compared from left to right. The first
    /// pair of which the second is less ends the look with `Ok(false)`, the
    /// first that the comparison declines to compare with the failure.
    fn try_is_sorted_by<F>(&self, compare: F) -> (r: OrderResult<bool>) where
        F: FnMut(&T, &T) -> Option<bool>,

        requires
            forall|k: int| 0 <= k < self@.len() - 1 ==> #[trigger] askable(compare, self@, k),
        ensures
            self@.len() < 2 ==> r == Ok::<bool, InvalidOrderError>(true),
            r == Ok::<bool, InvalidOrderError>(true) ==> forall|k: int|
                0 <= k < self@.len() - 1 ==> #[trigger] asked(compare, self@, k, Some(false)),
            r == Ok::<bool, InvalidOrderError>(false) ==> exists|k: int| #[trigger]
                stopped_at(compare, self@, k, Some(true)),
            r is Err ==> exists|k: int| #[trigger] stopped_at(compare, self@, k, None),
            forall|lt: spec_fn(T, T) -> Option<bool>| #[trigger]
                answers(compare, lt, self@) ==> r == sortedness(self@, lt),
            forall|lt: spec_fn(T, T) -> Option<bool>|
                #[trigger] answers(compare, lt, self@) && sorted_by(self@, lt) ==> r == Ok::<
                    bool,
                    InvalidOrderError,
                >(true),
    ;

    /// Says whether the sequence is sorted by the keys that `f` gives. An
    /// element without a key makes the look fail where it comes to it.
    fn try_is_sorted_by_key<K, F>(&mut self, f: F) -> (r: OrderResult<bool>) where
        F: Fn(&T) -> Option<K>,
        K: PartialOrd<K>,

        requires
            key_callable(f, old(self)@),
        ensures
            final(self)@ == old(self)@,
            old(self)@.len() < 2 ==> r == Ok::<bool, InvalidOrderError>(true),
            forall|key: spec_fn(T) -> Option<K>|
                #[trigger] keys_follow(f, key, old(self)@) && obeys::<K>() ==> r == sortedness(
                    old(self)@,
                    by_key(key),
                ),
    {
        let ghost s = self@;
        let g = &f;
        let less_by_key = |a: &T, b: &T| -> (r: Option<bool>)
            requires
                call_requires(g, (a,)),
                call_requires(g, (b,)),
            ensures
                keyed(g, *a, *b, r),
            {
                let ka = g(a);
                let kb = g(b);
                key_less(&ka, &kb)
            };
        proof {
            assert forall|k: int| 0 <= k < s.len() - 1 implies #[trigger] askable(less_by_key, s, k) by {
                assert(s.contains(s[k + 1]) && s.contains(s[k]));
            }
        }
        let r = self.try_is_sorted_by(less_by_key);
        proof {
            lemma_keyed_answers(f, less_by_key, s);
        }
        r
    }
}

impl<T> TrySort<T> for [T] {
    fn try_sort_by_cached_key<K, F>(&mut self, f: F) -> (r: OrderResult<()>) where
        F: FnMut(&T) -> Option<K>,
        K: PartialOrd<K>,
     {
        let ghost s = self@;
        let len = self.len();
        if len < 2 {
            proof {
                assert forall|key: spec_fn(T) -> Option<K>|
                    #[trigger] keys_follow(f, key, s) && obeys::<K>() && total_on(
                        by_key(key),
                        s,
                    ) implies stably_sorted(s, s, by_key(key)) && sorted_by(s, by_key(key)) by {
                    lemma_short_is_sorted(s, by_key(key));
                }
            }
            return Ok(());
        }
        let mut key_of = f;
        let keys = keys_of(self, &mut key_of);
        let mut less = |a: &Option<K>, b: &Option<K>| -> (r: Option<bool>)
            ensures
                obeys::<K>() ==> r == key_lt::<K>()(*a, *b),
            { key_less(a, b) };
        let ghost judge = less;
        proof {
            if obeys::<K>() {
                assert(answers(judge, key_lt::<K>(), keys@));
            }
        }
        match sorted_positions(keys.as_slice(), &mut less) {
            None => {
                proof {
                    assert forall|key: spec_fn(T) -> Option<K>|
                        #[trigger] keys_follow(f, key, s) && obeys::<K>() implies undefined_on(
                        by_key(key),
                        s,
                    ) by {
                        lemma_refused_by_key(f, judge, key, s, keys@);
                    }
                    assert forall|key: spec_fn(T) -> Option<K>|
                        #[trigger] keys_follow(f, key, s) && obeys::<K>() && total_on(
                            by_key(key),
                            s,
                        ) implies false by {
                        lemma_refused_by_key(f, judge, key, s, keys@);
                    }
                }
                Err(InvalidOrderError)
            },
            Some(mut idx) => {
                let ghost order = idx@;
                arrange(self, &mut idx);
                proof {
                    assert forall|key: spec_fn(T) -> Option<K>|
                        #[trigger] keys_follow(f, key, s) && obeys::<K>() && total_on(
                            by_key(key),
                            s,
                        ) implies stably_sorted(self@, s, by_key(key)) && sorted_by(
                        self@,
                        by_key(key),
                    ) by {
                        lemma_ranked_by_key(f, judge, key, s, keys@, order, self@);
                    }
                    assert forall|key: spec_fn(T) -> Option<K>, x: T|
                        #[trigger] keys_follow(f, key, s) && obeys::<K>() && s.contains(x)
                            && #[trigger] lone(by_key(key), s, x) implies false by {
                        lemma_weighed_by_key(f, judge, key, s, keys@, order, self@, x);
                    }
                    assert forall|key: spec_fn(T) -> Option<K>, x: T|
                        #[trigger] keys_follow(f, key, s) && obeys::<K>() && s.contains(x) && (
                        #[trigger] key(x)) is None implies false by {
                        lemma_keyless_is_lone(key, s, x);
                        lemma_weighed_by_key(f, judge, key, s, keys@, order, self@, x);
                    }
                }
                Ok(())
            },
        }
    }

    fn try_is_sorted_by<F>(&self, compare: F) -> (r: OrderResult<bool>) where
        F: FnMut(&T, &T) -> Option<bool>,
     {
        try_is_sorted_by(self, compare)
    }

    fn try_sort_by<F>(&mut self, compare: F) -> (r: OrderResult<()>) where
        F: FnMut(&T, &T) -> Option<bool>,
     {
        let ghost s = self@;
        match mergesort::merge_sort(self, compare) {
            Some(_) => {
                proof {
                    assert forall|lt: spec_fn(T, T) -> Option<bool>, x: T|
                        #[trigger] answers(compare, lt, s) && s.len() >= 2 && s.contains(x)
                            && #[trigger] lone(lt, s, x) implies false by {
                        lemma_all_weighed_none_lone(compare, lt, s, self@, x);
                    }
                }
                Ok(())
            },
            None => Err(InvalidOrderError),
        }
    }

    fn try_sort_unstable_by<F>(&mut self, compare: F) -> (r: OrderResult<()>) where
        F: FnMut(&T, &T) -> Option<bool>,
     {
        let ghost s = self@;
        match quicksort::quicksort(self, compare) {
            Some(_) => {
                proof {
                    assert forall|lt: spec_fn(T, T) -> Option<bool>, x: T|
                        #[trigger] answers(compare, lt, s) && s.len() >= 2 && s.contains(x)
                            && #[trigger] lone(lt, s, x) implies false by {
                        lemma_all_weighed_none_lone(compare, lt, s, self@, x);
                    }
                }
                Ok(())
            },
            None => Err(InvalidOrderError),
        }
    }
}

} // verus!
