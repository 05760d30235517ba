//! Sorting, searching and selecting for types that are only partially ordered.
//!
//! Every operation takes a comparison that may decline to answer. As long as
//! all answers are given, the operations behave as their total-order
//! counterparts do; the first refusal ends the operation with
//! [`InvalidOrderError`].

use vstd::prelude::*;
use vstd::std_specs::cmp::PartialOrdSpec;
use core::cmp::Ordering;
use vstd::laws_cmp::obeys_partial_cmp_spec_properties;
use crate::order::total_on;

pub mod binary_search;
pub mod key;
pub mod laws;
pub mod min_max;
pub mod order;
pub mod sort;

pub use binary_search::TryBinarySearch;
pub use min_max::TryMinMax;
pub use sort::TrySort;

verus! {

/// The comparison had no answer for some pair of elements.
#[derive(Copy, Clone, PartialEq, Eq, PartialOrd, Ord, Hash, Default, Debug, Structural)]
pub struct InvalidOrderError;

impl InvalidOrderError {
    /// What went wrong, in words.
    pub fn message(&self) -> (r: String)
        ensures
            r@ == "Failed because partial_cmp returns None."@,
    {
        "Failed because partial_cmp returns None.".to_owned()
    }
}

/// What an operation returns: its value, or the one failure there is.
pub type OrderResult<T> = Result<T, InvalidOrderError>;

/// Whether an ordering, if there is one, is "less".
pub open spec fn less_of(o: Option<Ordering>) -> Option<bool> {
    match o {
        Some(Ordering::Less) => Some(true),
        Some(_) => Some(false),
        None => None,
    }
}

/// The type's own comparison keeps to what is specified of it.
pub open spec fn obeys<T: PartialOrd>() -> bool {
    T::obeys_partial_cmp_spec()
}

/// The relation that the type's own comparison stands for.
pub open spec fn natural<T: PartialOrd>() -> spec_fn(T, T) -> Option<bool> {
    |a: T, b: T| less_of(a.partial_cmp_spec(&b))
}

/// The type's own comparison keeps to what is specified of it, and what is
/// specified keeps the laws of comparisons: "less" and "greater" are
/// transitive and mirror each other.
pub open spec fn lawful<T: PartialOrd>() -> bool {
    obeys::<T>() && obeys_partial_cmp_spec_properties::<T>()
}

/// The type's own comparison has an answer for any two members of `s` and
/// calls no two different members equal.
pub open spec fn comparable_on<T: PartialOrd>(s: Seq<T>) -> bool {
    &&& forall|a: T, b: T|
        s.contains(a) && s.contains(b) ==> (#[trigger] a.partial_cmp_spec(&b)) is Some
    &&& forall|a: T, b: T|
        s.contains(a) && s.contains(b) && #[trigger] a.partial_cmp_spec(&b) == Some(
            Ordering::Equal,
        ) ==> a == b
}

/// A lawful comparison that has an answer for any two members, and calls no
/// two different members equal, orders them totally.
pub proof fn lemma_comparable_is_total<T: PartialOrd>(s: Seq<T>)
    requires
        lawful::<T>(),
        comparable_on(s),
    ensures
        total_on(natural::<T>(), s),
{
    reveal(obeys_partial_cmp_spec_properties);
    let lt = natural::<T>();
    assert forall|a: T, b: T| s.contains(a) && s.contains(b) implies (#[trigger] lt(a, b)) is Some by {
        assert(a.partial_cmp_spec(&b) is Some);
    }
    assert forall|a: T| s.contains(a) implies #[trigger] lt(a, a) == Some(false) by {
        assert(a.partial_cmp_spec(&a) is Some);
        if a.partial_cmp_spec(&a) == Some(Ordering::Less) {
            assert(a.partial_cmp_spec(&a) == Some(Ordering::Greater));
        }
    }
    assert forall|a: T, b: T, c: T|
        s.contains(a) && s.contains(b) && s.contains(c) && #[trigger] lt(a, b) == Some(true)
            && #[trigger] lt(b, c) == Some(true) implies lt(a, c) == Some(true) by {
        assert(a.partial_cmp_spec(&b) == Some(Ordering::Less));
        assert(b.partial_cmp_spec(&c) == Some(Ordering::Less));
        assert(a.partial_cmp_spec(&c) == Some(Ordering::Less));
    }
    assert forall|a: T, b: T, c: T|
        s.contains(a) && s.contains(b) && s.contains(c) && #[trigger] lt(a, b) == Some(false)
            && #[trigger] lt(b, c) == Some(false) implies lt(a, c) == Some(false) by {
        assert(a.partial_cmp_spec(&b) is Some && b.partial_cmp_spec(&c) is Some);
        assert(a.partial_cmp_spec(&c) is Some);
        if a.partial_cmp_spec(&b) == Some(Ordering::Equal) {
            assert(a == b);
        } else if b.partial_cmp_spec(&c) == Some(Ordering::Equal) {
            assert(b == c);
        } else {
            assert(a.partial_cmp_spec(&b) == Some(Ordering::Greater));
            assert(b.partial_cmp_spec(&c) == Some(Ordering::Greater));
            assert(a.partial_cmp_spec(&c) == Some(Ordering::Greater));
        }
    }
}

/// Whether `a` is less than `b` by the type's own comparison, if the two can
/// be compared.
pub fn ord_as_cmp<T>(a: &T, b: &T) -> (r: Option<bool>) where T: PartialOrd<T>
    ensures
        obeys::<T>() ==> r == natural::<T>()(*a, *b),
{
    match a.partial_cmp(b) {
        Some(Ordering::Less) => Some(true),
        Some(_) => Some(false),
        None => None,
    }
}

} // verus!
