//! Checking whether a sequence is sorted.

use vstd::prelude::*;
use crate::order::{answers, sorted_by};
use crate::{InvalidOrderError, OrderResult};

verus! {

/// Under `lt` the element after position `k` is not less than the one at `k`.
pub open spec fn step_fine<T>(s: Seq<T>, lt: spec_fn(T, T) -> Option<bool>, k: int) -> bool {
    lt(s[k + 1], s[k]) == Some(false)
}

/// Position `k` starts the first pair of neighbours that is not known to be in
/// order.
pub open spec fn first_break<T>(s: Seq<T>, lt: spec_fn(T, T) -> Option<bool>, k: int) -> bool {
    &&& 0 <= k < s.len() - 1
    &&& !step_fine(s, lt, k)
    &&& forall|j: int| 0 <= j < k ==> #[trigger] step_fine(s, lt, j)
}

/// What a look at `s` from left to right finds: `Ok(true)` if every element is
/// followed by one that is not less, else what the first other pair of
/// neighbours says, `Ok(false)` if the second is less, the failure if `lt` has
/// no answer.
pub open spec fn sortedness<T>(s: Seq<T>, lt: spec_fn(T, T) -> Option<bool>) -> OrderResult<bool> {
    if exists|k: int| first_break(s, lt, k) {
        let k = choose|k: int| first_break(s, lt, k);
        if lt(s[k + 1], s[k]) is None {
            Err(InvalidOrderError)
        } else {
            Ok(false)
        }
    } else {
        Ok(true)
    }
}

/// The comparison can be asked whether the element after position `k` is less
/// than the one at `k`.
pub open spec fn askable<T, F: FnMut(&T, &T) -> Option<bool>>(compare: F, s: Seq<T>, k: int) -> bool {
    call_requires(compare, (&s[k + 1], &s[k]))
}

/// Asked whether the element after position `k` is less than the one at `k`,
/// the comparison can give this answer.
pub open spec fn asked<T, F: FnMut(&T, &T) -> Option<bool>>(
    compare: F,
    s: Seq<T>,
    k: int,
    answer: Option<bool>,
) -> bool {
    call_ensures(compare, (&s[k + 1], &s[k]), answer)
}

/// The comparison can find every pair of neighbours before position `k` in
/// order and give this answer for the pair at `k`.
pub open spec fn stopped_at<T, F: FnMut(&T, &T) -> Option<bool>>(
    compare: F,
    s: Seq<T>,
    k: int,
    answer: Option<bool>,
) -> bool {
    &&& 0 <= k < s.len() - 1
    &&& asked(compare, s, k, answer)
    &&& forall|j: int| 0 <= j < k ==> #[trigger] asked(compare, s, j, Some(false))
}

/// Only one position can start the first break.
proof fn lemma_first_break_unique<T>(s: Seq<T>, lt: spec_fn(T, T) -> Option<bool>, k: int, m: int)
    requires
        first_break(s, lt, k),
        first_break(s, lt, m),
    ensures
        k == m,
{
    if k < m {
        assert(step_fine(s, lt, k));
    } else if m < k {
        assert(step_fine(s, lt, m));
    }
}

/// A sequence that is sorted under `lt` is found sorted.
pub proof fn lemma_sorted_is_found_sorted<T>(s: Seq<T>, lt: spec_fn(T, T) -> Option<bool>)
    requires
        sorted_by(s, lt),
    ensures
        sortedness(s, lt) == Ok::<bool, InvalidOrderError>(true),
{
    if exists|k: int| first_break(s, lt, k) {
        let k = choose|k: int| first_break(s, lt, k);
        assert(lt(s[k + 1], s[k]) == Some(false));
    }
}

/// Looks at the sequence from left to right and says whether every element is
/// followed by one that is not less. The first pair of neighbours of which the
/// second is less ends the look with `Ok(false)`, the first that the
/// comparison declines to compare with the failure. Nothing is compared in a
/// sequence of fewer than two elements.
pub fn try_is_sorted_by<T, F>(slice: &[T], compare: F) -> (r: OrderResult<bool>) where
    F: FnMut(&T, &T) -> Option<bool>,

    requires
        forall|k: int| 0 <= k < slice@.len() - 1 ==> #[trigger] askable(compare, slice@, k),
    ensures
        slice@.len() < 2 ==> r == Ok::<bool, InvalidOrderError>(true),
        r == Ok::<bool, InvalidOrderError>(true) ==> forall|k: int|
            0 <= k < slice@.len() - 1 ==> #[trigger] asked(compare, slice@, k, Some(false)),
        r == Ok::<bool, InvalidOrderError>(false) ==> exists|k: int| #[trigger]
            stopped_at(compare, slice@, k, Some(true)),
        r is Err ==> exists|k: int| #[trigger] stopped_at(compare, slice@, k, None),
        forall|lt: spec_fn(T, T) -> Option<bool>| #[trigger]
            answers(compare, lt, slice@) ==> r == sortedness(slice@, lt),
        forall|lt: spec_fn(T, T) -> Option<bool>|
            #[trigger] answers(compare, lt, slice@) && sorted_by(slice@, lt) ==> r == Ok::<
                bool,
                InvalidOrderError,
            >(true),
{
    let mut ask = compare;
    let ghost s = slice@;
    let len = slice.len();
    if len < 2 {
        proof {
            assert forall|lt: spec_fn(T, T) -> Option<bool>| #[trigger]
                answers(compare, lt, s) implies sortedness(s, lt) == Ok::<bool, InvalidOrderError>(
                true,
            ) by {}
        }
        return Ok(true);
    }
    let mut i: usize = 1;
    while i < len
        invariant
            1 <= i <= len,
            len == s.len(),
            s == slice@,
            ask == compare,
            forall|k: int| 0 <= k < s.len() - 1 ==> #[trigger] askable(compare, s, k),
            forall|j: int| 0 <= j < i - 1 ==> #[trigger] asked(compare, s, j, Some(false)),
        decreases len - i,
    {
        assert(askable(compare, s, i - 1));
        let answer = ask(&slice[i], &slice[i - 1]);
        proof {
            assert(asked(compare, s, i - 1, answer));
            assert(s.contains(s[i as int]) && s.contains(s[i - 1]));
        }
        match answer {
            Some(false) => {},
            Some(true) => {
                proof {
                    assert(stopped_at(compare, s, i - 1, Some(true)));
                    assert forall|lt: spec_fn(T, T) -> Option<bool>| #[trigger]
                        answers(compare, lt, s) implies sortedness(s, lt) == Ok::<
                        bool,
                        InvalidOrderError,
                    >(false) by {
                        lemma_break_found(compare, lt, s, i - 1, answer);
                    }
                }
                return Ok(false);
            },
            None => {
                proof {
                    assert(stopped_at(compare, s, i - 1, None));
                    assert forall|lt: spec_fn(T, T) -> Option<bool>| #[trigger]
                        answers(compare, lt, s) implies sortedness(s, lt) == Err::<
                        bool,
                        InvalidOrderError,
                    >(InvalidOrderError) by {
                        lemma_break_found(compare, lt, s, i - 1, answer);
                    }
                }
                return Err(InvalidOrderError);
            },
        }
        i = i + 1;
    }
    proof {
        assert forall|lt: spec_fn(T, T) -> Option<bool>| #[trigger]
            answers(compare, lt, s) implies sortedness(s, lt) == Ok::<bool, InvalidOrderError>(
            true,
        ) by {
            if exists|k: int| first_break(s, lt, k) {
                let k = choose|k: int| first_break(s, lt, k);
                assert(asked(compare, s, k, Some(false)));
                assert(s.contains(s[k + 1]) && s.contains(s[k]));
            }
        }
    }
    Ok(true)
}

/// Where the comparison follows `lt` and has stopped at `k`, the first break
/// is at `k`, and the look ends as the answer there says.
proof fn lemma_break_found<T, F: FnMut(&T, &T) -> Option<bool>>(
    compare: F,
    lt: spec_fn(T, T) -> Option<bool>,
    s: Seq<T>,
    k: int,
    answer: Option<bool>,
)
    requires
        answers(compare, lt, s),
        stopped_at(compare, s, k, answer),
        answer != Some(false),
    ensures
        first_break(s, lt, k),
        sortedness(s, lt) == if answer is None {
            Err::<bool, InvalidOrderError>(InvalidOrderError)
        } else {
            Ok::<bool, InvalidOrderError>(false)
        },
{
    assert(s.contains(s[k + 1]) && s.contains(s[k]));
    assert(lt(s[k + 1], s[k]) == answer);
    assert forall|j: int| 0 <= j < k implies #[trigger] step_fine(s, lt, j) by {
        assert(asked(compare, s, j, Some(false)));
        assert(s.contains(s[j + 1]) && s.contains(s[j]));
    }
    assert(first_break(s, lt, k));
    let m = choose|m: int| first_break(s, lt, m);
    lemma_first_break_unique(s, lt, k, m);
}

} // verus!
