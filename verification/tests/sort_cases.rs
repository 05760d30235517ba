use try_partialord::sort::mergesort::merge_sort;
use try_partialord::sort::quicksort::quicksort;
use try_partialord::key::key_less;
use try_partialord::{ord_as_cmp, InvalidOrderError, TrySort};

fn noise(n: usize, seed: u64, modulus: u64) -> Vec<u64> {
    let mut state = seed;
    let mut out = Vec::with_capacity(n);
    for _ in 0..n {
        state = state.wrapping_mul(6364136223846793005).wrapping_add(1442695040888963407);
        out.push((state >> 33) % modulus);
    }
    out
}

fn less_u64(a: &u64, b: &u64) -> Option<bool> {
    Some(a < b)
}

fn first_less(a: &(u64, usize), b: &(u64, usize)) -> Option<bool> {
    Some(a.0 < b.0)
}

fn tagged(values: &[u64]) -> Vec<(u64, usize)> {
    values.iter().copied().enumerate().map(|(i, x)| (x, i)).collect()
}

#[test]
fn sort_three_floats() {
    let mut v = vec![3.0_f64, 1.0, 2.0];
    assert_eq!(v.try_sort(), Ok(()));
    assert_eq!(v, vec![1.0, 2.0, 3.0]);
    let mut w = vec![3.0_f64, 1.0, 2.0];
    assert_eq!(w.try_sort_unstable(), Ok(()));
    assert_eq!(w, vec![1.0, 2.0, 3.0]);
}

#[test]
fn sort_with_nan_fails() {
    let mut v = vec![3.0_f64, f64::NAN, 1.0];
    assert_eq!(v.try_is_sorted(), Err(InvalidOrderError));
    assert_eq!(v.try_sort(), Err(InvalidOrderError));
    let mut w = vec![3.0_f64, f64::NAN, 1.0];
    assert_eq!(w.try_sort_unstable(), Err(InvalidOrderError));
}

#[test]
fn stable_sort_leaves_input_alone_on_failure() {
    let mut v: Vec<f64> = noise(200, 7, 1000).into_iter().map(|x| x as f64).collect();
    v[77] = f64::NAN;
    let before: Vec<u64> = v.iter().map(|x| x.to_bits()).collect();
    assert!(v.try_sort().is_err());
    let after: Vec<u64> = v.iter().map(|x| x.to_bits()).collect();
    assert_eq!(before, after);
}

#[test]
fn unstable_sort_keeps_elements_on_failure() {
    for n in [2usize, 5, 20, 21, 64, 300] {
        for at in [0, n / 2, n - 1] {
            let mut v: Vec<f64> = noise(n, 11 + n as u64, 50).into_iter().map(|x| x as f64).collect();
            v[at] = f64::NAN;
            let mut before: Vec<u64> = v.iter().map(|x| x.to_bits()).collect();
            assert!(v.try_sort_unstable().is_err());
            let mut after: Vec<u64> = v.iter().map(|x| x.to_bits()).collect();
            before.sort();
            after.sort();
            assert_eq!(before, after);
        }
    }
}

#[test]
fn one_nan_anywhere_fails_both_sorts() {
    for n in [2usize, 3, 19, 20, 21, 22, 100, 257] {
        for at in 0..n {
            let mut v: Vec<f64> = (0..n).map(|x| ((x * 7919) % 101) as f64).collect();
            v[at] = f64::NAN;
            let mut w = v.clone();
            assert!(v.try_sort().is_err(), "stable, n = {}, at = {}", n, at);
            assert!(w.try_sort_unstable().is_err(), "unstable, n = {}, at = {}", n, at);
        }
    }
}

#[test]
fn silent_comparison_fails_and_keeps_elements() {
    let mut v = noise(50, 3, 10);
    let mut expected = v.clone();
    assert!(v.try_sort_by(|_, _| None).is_err());
    assert_eq!(v, expected);
    assert!(v.try_sort_unstable_by(|_, _| None).is_err());
    v.sort();
    expected.sort();
    assert_eq!(v, expected);
}

#[test]
fn short_inputs_are_not_compared() {
    let mut calls = 0;
    let mut empty: Vec<u64> = Vec::new();
    assert_eq!(
        empty.try_sort_by(|a, b| {
            calls += 1;
            Some(a < b)
        }),
        Ok(())
    );
    let mut one = vec![5u64];
    assert_eq!(
        one.try_sort_by(|_, _| {
            calls += 1;
            None
        }),
        Ok(())
    );
    assert_eq!(
        one.try_sort_unstable_by(|_, _| {
            calls += 1;
            None
        }),
        Ok(())
    );
    assert_eq!(
        one.try_is_sorted_by(|_, _| {
            calls += 1;
            None
        }),
        Ok(true)
    );
    assert_eq!(one, vec![5]);
    assert_eq!(calls, 0);
}

#[test]
fn stable_sort_matches_the_standard_one() {
    for n in [0usize, 1, 2, 3, 10, 19, 20, 21, 22, 50, 99, 100, 101, 500, 2000] {
        for modulus in [1u64, 2, 7, 1000, 1 << 40] {
            let values = noise(n, n as u64 * 31 + modulus, modulus);
            let mut ours = tagged(&values);
            let mut theirs = tagged(&values);
            assert_eq!(ours.try_sort_by(first_less), Ok(()));
            theirs.sort_by(|a, b| a.0.cmp(&b.0));
            assert_eq!(ours, theirs, "n = {}, modulus = {}", n, modulus);
        }
    }
}

#[test]
fn stable_sort_handles_runs() {
    let mut shapes: Vec<Vec<u64>> = Vec::new();
    shapes.push((0..300).collect());
    shapes.push((0..300).rev().collect());
    shapes.push((0..300).map(|x| x % 17).collect());
    shapes.push((0..300).map(|x| 16 - x % 17).collect());
    shapes.push((0..300).map(|x| x / 40).collect());
    shapes.push((0..300).map(|x| if x % 50 < 25 { x } else { 600 - x }).collect());
    shapes.push((0..64).chain((0..64).rev()).chain(0..3).collect());
    for values in shapes {
        let mut ours = tagged(&values);
        let mut theirs = tagged(&values);
        assert_eq!(merge_sort(&mut ours, first_less), Some(()));
        theirs.sort_by(|a, b| a.0.cmp(&b.0));
        assert_eq!(ours, theirs);
    }
}

#[test]
fn unstable_sort_sorts() {
    for n in [0usize, 1, 2, 3, 10, 19, 20, 21, 22, 23, 50, 100, 500, 3000] {
        for modulus in [1u64, 2, 7, 1000, 1 << 40] {
            let mut ours = noise(n, n as u64 * 17 + modulus, modulus);
            let mut theirs = ours.clone();
            assert_eq!(ours.try_sort_unstable_by(less_u64), Ok(()));
            theirs.sort();
            assert_eq!(ours, theirs, "n = {}, modulus = {}", n, modulus);
        }
    }
    let mut shapes: Vec<Vec<u64>> = Vec::new();
    shapes.push((0..500).collect());
    shapes.push((0..500).rev().collect());
    shapes.push((0..500).map(|x| x % 3).collect());
    shapes.push((0..250).chain((0..250).rev()).collect());
    for mut ours in shapes {
        let mut theirs = ours.clone();
        assert_eq!(quicksort(&mut ours, less_u64), Some(()));
        theirs.sort();
        assert_eq!(ours, theirs);
    }
}

#[test]
fn sorting_what_is_sorted_changes_nothing() {
    let values: Vec<u64> = (0..200).map(|x| x / 3).collect();
    let mut v = tagged(&values);
    let expected = v.clone();
    assert_eq!(v.try_sort_by(first_less), Ok(()));
    assert_eq!(v, expected);
    assert_eq!(v.try_is_sorted_by(|a, b| Some(a.0 < b.0)), Ok(true));
}

#[test]
fn sorted_result_is_found_sorted() {
    let mut v: Vec<f32> = noise(400, 5, 97).into_iter().map(|x| x as f32 / 8.0).collect();
    assert_eq!(v.try_is_sorted(), Ok(false));
    assert_eq!(v.try_sort(), Ok(()));
    assert_eq!(v.try_is_sorted(), Ok(true));
    let mut w: Vec<f32> = noise(400, 6, 97).into_iter().map(|x| x as f32 / 8.0).collect();
    assert_eq!(w.try_sort_unstable(), Ok(()));
    assert_eq!(w.try_is_sorted(), Ok(true));
}

#[test]
fn the_look_goes_from_left_to_right() {
    assert_eq!(Vec::<f64>::new().try_is_sorted(), Ok(true));
    assert_eq!(vec![1.0_f64].try_is_sorted(), Ok(true));
    assert_eq!(vec![f64::NAN].try_is_sorted(), Ok(true));
    assert_eq!(vec![1.0_f64, 1.0].try_is_sorted(), Ok(true));
    assert_eq!(vec![1.0_f64, 2.0, 2.0, 3.0].try_is_sorted(), Ok(true));
    assert_eq!(vec![2.0_f64, 1.0].try_is_sorted(), Ok(false));
    assert_eq!(vec![3.0_f64, 1.0, f64::NAN].try_is_sorted(), Ok(false));
    assert_eq!(vec![1.0_f64, f64::NAN, 0.0].try_is_sorted(), Err(InvalidOrderError));
    assert_eq!(vec![1.0_f64, 3.0, f64::NAN].try_is_sorted(), Err(InvalidOrderError));
    let mut asked = Vec::new();
    let v = vec![1u64, 2, 3, 0, 9];
    assert_eq!(
        v.try_is_sorted_by(|later, earlier| {
            asked.push((*later, *earlier));
            Some(later < earlier)
        }),
        Ok(false)
    );
    assert_eq!(asked, vec![(2, 1), (3, 2), (0, 3)]);
}

#[test]
fn sorting_by_key() {
    let words = vec!["pear", "fig", "banana", "kiwi", "plum", "apple", "date"];
    let by_len = |w: &&str| Some(w.len());
    let mut stable = words.clone();
    assert_eq!(stable.try_sort_by_key(by_len), Ok(()));
    assert_eq!(stable, vec!["fig", "pear", "kiwi", "plum", "date", "apple", "banana"]);
    let mut cached = words.clone();
    assert_eq!(cached.try_sort_by_cached_key(by_len), Ok(()));
    assert_eq!(cached, stable);
    let mut unstable = words.clone();
    assert_eq!(unstable.try_sort_unstable_by_key(by_len), Ok(()));
    let lens: Vec<usize> = unstable.iter().map(|w| w.len()).collect();
    assert_eq!(lens, vec![3, 4, 4, 4, 4, 5, 6]);
    assert_eq!(stable.try_is_sorted_by_key(by_len), Ok(true));
    let mut unsorted = words.clone();
    assert_eq!(unsorted.try_is_sorted_by_key(by_len), Ok(false));
    assert_eq!(unsorted, words);
}

#[test]
fn an_element_without_key_fails_the_sort() {
    let key = |x: &i32| if *x == 1 { None } else { Some(*x) };
    let mut v = vec![2, 1];
    assert_eq!(v.try_sort_by_key(key), Err(InvalidOrderError));
    assert_eq!(v, vec![2, 1]);
    assert_eq!(v.try_sort_by_cached_key(key), Err(InvalidOrderError));
    assert_eq!(v, vec![2, 1]);
    assert_eq!(v.try_sort_unstable_by_key(key), Err(InvalidOrderError));
    v.sort();
    assert_eq!(v, vec![1, 2]);

    let negative_has_none = |x: &i32| if *x < 0 { None } else { Some(*x) };
    for n in [2usize, 3, 20, 21, 22, 90] {
        for at in 0..n {
            let mut values: Vec<i32> = (0..n as i32).map(|x| (x * 37) % 11).collect();
            values[at] = -1;
            let mut v = values.clone();
            assert_eq!(v.try_sort_by_key(negative_has_none), Err(InvalidOrderError));
            assert_eq!(v, values);
            assert_eq!(v.try_sort_by_cached_key(negative_has_none), Err(InvalidOrderError));
            assert_eq!(v, values);
            assert_eq!(v.try_sort_unstable_by_key(negative_has_none), Err(InvalidOrderError));
            v.sort();
            values.sort();
            assert_eq!(v, values);
        }
    }
}

#[test]
fn one_element_needs_no_key() {
    let none = |_: &i32| None::<i32>;
    let mut v = vec![7];
    assert_eq!(v.try_sort_by_key(none), Ok(()));
    assert_eq!(v.try_sort_by_cached_key(none), Ok(()));
    assert_eq!(v.try_sort_unstable_by_key(none), Ok(()));
    assert_eq!(v.try_is_sorted_by_key(none), Ok(true));
    assert_eq!(v, vec![7]);
    let mut empty: Vec<i32> = Vec::new();
    assert_eq!(empty.try_sort_by_key(none), Ok(()));
    assert_eq!(empty.try_is_sorted_by_key(none), Ok(true));
}

#[test]
fn the_look_fails_at_an_element_without_key() {
    let key = |x: &i32| if *x < 0 { None } else { Some(*x) };
    assert_eq!(vec![0, 2, 3].try_is_sorted_by_key(key), Ok(true));
    assert_eq!(vec![0, 2, -1].try_is_sorted_by_key(key), Err(InvalidOrderError));
    assert_eq!(vec![-1, 2, 3].try_is_sorted_by_key(key), Err(InvalidOrderError));
    assert_eq!(vec![3, 1, -1].try_is_sorted_by_key(key), Ok(false));
}

#[test]
fn keys_that_cannot_be_compared_fail() {
    let key = |x: &i32| Some(if *x == 0 { f64::NAN } else { *x as f64 });
    let mut v = vec![3, 1, 0, 2];
    assert_eq!(v.try_sort_by_key(key), Err(InvalidOrderError));
    assert_eq!(v, vec![3, 1, 0, 2]);
    assert_eq!(v.try_sort_by_cached_key(key), Err(InvalidOrderError));
    assert_eq!(v, vec![3, 1, 0, 2]);
    assert_eq!(v.try_sort_unstable_by_key(key), Err(InvalidOrderError));
    v.sort();
    assert_eq!(v, vec![0, 1, 2, 3]);
    assert_eq!(vec![1, 0, 2].try_is_sorted_by_key(key), Err(InvalidOrderError));
}

#[test]
fn cached_keys_are_computed_once() {
    let mut calls = 0;
    let mut v = noise(300, 9, 40);
    let mut expected = v.clone();
    assert_eq!(
        v.try_sort_by_cached_key(|x| {
            calls += 1;
            Some(*x / 2)
        }),
        Ok(())
    );
    expected.sort_by_key(|x| *x / 2);
    assert_eq!(v, expected);
    assert_eq!(calls, 300);
    let mut one = vec![1u64];
    assert_eq!(
        one.try_sort_by_cached_key(|x| {
            calls += 1;
            Some(*x)
        }),
        Ok(())
    );
    assert_eq!(calls, 300);
}

#[test]
fn natural_comparison() {
    assert_eq!(ord_as_cmp(&1.0_f64, &2.0), Some(true));
    assert_eq!(ord_as_cmp(&2.0_f64, &1.0), Some(false));
    assert_eq!(ord_as_cmp(&2.0_f64, &2.0), Some(false));
    assert_eq!(ord_as_cmp(&f64::NAN, &2.0), None);
    assert_eq!(ord_as_cmp(&2.0_f64, &f64::NAN), None);
    assert_eq!(ord_as_cmp(&None::<u8>, &Some(0u8)), Some(true));
    assert_eq!(ord_as_cmp(&"a", &"b"), Some(true));
}

#[test]
fn comparing_keys() {
    assert_eq!(key_less(&Some(1), &Some(2)), Some(true));
    assert_eq!(key_less(&Some(2), &Some(1)), Some(false));
    assert_eq!(key_less(&Some(2), &Some(2)), Some(false));
    assert_eq!(key_less(&None, &Some(2)), None);
    assert_eq!(key_less(&Some(2), &None), None);
    assert_eq!(key_less(&None::<i32>, &None), None);
    assert_eq!(key_less(&Some(f64::NAN), &Some(1.0)), None);
}

#[test]
fn the_failure() {
    let e = InvalidOrderError;
    assert_eq!(e.message(), "Failed because partial_cmp returns None.");
    assert_eq!(e, InvalidOrderError::default());
    assert_eq!(format!("{:?}", e.clone()), "InvalidOrderError");
}

#[test]
fn nothing_is_asked_after_a_refusal() {
    for n in [2usize, 10, 20, 21, 40, 150] {
        let values = noise(n, n as u64, 1000);
        let mut budget = 0;
        loop {
            let mut left = budget;
            let mut declined = false;
            let mut v = values.clone();
            let r = v.try_sort_by(|a, b| {
                assert!(!declined);
                if left == 0 {
                    declined = true;
                    None
                } else {
                    left -= 1;
                    Some(a < b)
                }
            });
            if r.is_ok() {
                assert!(!declined);
                break;
            }
            assert!(declined);
            assert_eq!(v, values);
            budget += 1 + budget / 8;
        }
        let mut budget = 0;
        loop {
            let mut left = budget;
            let mut declined = false;
            let mut v = values.clone();
            let r = v.try_sort_unstable_by(|a, b| {
                assert!(!declined);
                if left == 0 {
                    declined = true;
                    None
                } else {
                    left -= 1;
                    Some(a < b)
                }
            });
            let mut kept = v.clone();
            kept.sort();
            let mut expected = values.clone();
            expected.sort();
            assert_eq!(kept, expected);
            if r.is_ok() {
                assert!(!declined);
                assert_eq!(v, expected);
                break;
            }
            assert!(declined);
            budget += 1 + budget / 8;
        }
    }
}

#[test]
fn the_look_stops_at_a_refusal() {
    let v = vec![1u64, 2, 3, 4, 0];
    let mut calls = 0;
    let r = v.try_is_sorted_by(|_, _| {
        calls += 1;
        if calls == 2 {
            None
        } else {
            Some(false)
        }
    });
    assert_eq!(r, Err(InvalidOrderError));
    assert_eq!(calls, 2);
}
