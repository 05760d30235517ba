use rand::distributions::{Distribution, Standard};
use rand::thread_rng;
use try_partialord::sort::TrySort;

#[test]
fn try_sort_ok() {
    let rng = thread_rng();
    let mut v: Vec<f32> = Standard.sample_iter(rng).take(100).collect();
    let res = v.try_sort();
    assert!(res.is_ok());
    assert!(v.try_is_sorted().unwrap_or(false))
}

#[test]
fn try_sort_error() {
    let rng = thread_rng();
    let mut v: Vec<f32> = Standard.sample_iter(rng).take(100).collect();
    v.push(f32::NAN);
    let res = v.try_sort();
    assert!(res.is_err());
    assert!(!v.try_is_sorted().is_err())
}
