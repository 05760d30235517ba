use rand::distributions::{Distribution, Standard};
use rand::{random, thread_rng};
use try_partialord::binary_search::TryBinarySearch;
use try_partialord::sort::TrySort;

#[test]
fn try_binary_search_ok() {
    let rng = thread_rng();
    let mut v: Vec<f32> = Standard.sample_iter(rng).take(100).collect();
    assert!(v.try_sort().is_ok());
    let b = random();
    let i = v.try_binary_search(&b);
    assert!(i.is_ok());
    let ik = i.unwrap().unwrap_or_else(|e| e);
    for sm in v[..ik].iter() {
        assert!(sm < &b);
    }
    for sm in v[ik..].iter() {
        assert!(sm >= &b);
    }
}

#[test]
fn search_in_three_floats() {
    let v = vec![1.0_f64, 3.0, 5.0];
    assert_eq!(v.try_binary_search(&3.0), Ok(Ok(1)));
    assert_eq!(v.try_binary_search(&4.0), Ok(Err(2)));
    assert_eq!(v.try_binary_search(&0.0), Ok(Err(0)));
    assert_eq!(v.try_binary_search(&6.0), Ok(Err(3)));
    assert_eq!(v.try_binary_search(&1.0), Ok(Ok(0)));
    assert_eq!(v.try_binary_search(&5.0), Ok(Ok(2)));
}

#[test]
fn search_in_nothing() {
    let v: Vec<f64> = Vec::new();
    assert_eq!(v.try_binary_search(&1.0), Ok(Err(0)));
    assert_eq!(v.try_binary_search(&f64::NAN), Ok(Err(0)));
    let mut calls = 0;
    assert_eq!(
        v.try_binary_search_by(|_| {
            calls += 1;
            None
        }),
        Ok(Err(0))
    );
    assert_eq!(calls, 0);
}

#[test]
fn search_in_one_element_probes_once() {
    let v = vec![10u32];
    for (target, expected) in [(5u32, Ok(Err(0))), (10, Ok(Ok(0))), (15, Ok(Err(1)))] {
        let mut calls = 0;
        let r = v.try_binary_search_by(|a| {
            calls += 1;
            a.partial_cmp(&target)
        });
        assert_eq!(r, expected);
        assert_eq!(calls, 1);
    }
}

#[test]
fn search_for_what_cannot_be_compared_fails() {
    let v = vec![1.0_f64, 3.0, 5.0];
    assert!(v.try_binary_search(&f64::NAN).is_err());
    assert!(vec![2.0_f64].try_binary_search(&f64::NAN).is_err());
}

#[test]
fn search_fails_only_where_it_probes() {
    let v = vec![1.0_f64, 2.0, f64::NAN];
    assert_eq!(v.try_binary_search(&1.0), Ok(Ok(0)));
    assert!(v.try_binary_search(&3.0).is_err());
    let w = vec![1.0_f64, f64::NAN, 3.0];
    assert!(w.try_binary_search(&1.0).is_err());
}

#[test]
fn search_agrees_with_the_standard_one() {
    for n in 0..40u32 {
        let v: Vec<u32> = (0..n).map(|x| 2 * x + 1).collect();
        for target in 0..(2 * n + 2) {
            let ours = v.try_binary_search(&target);
            assert_eq!(ours, Ok(v.binary_search(&target)), "n = {}, target = {}", n, target);
        }
    }
}

#[test]
fn search_among_equals_finds_one_of_them() {
    let v = vec![1u8, 2, 2, 2, 2, 3, 3, 9];
    match v.try_binary_search(&2) {
        Ok(Ok(i)) => assert_eq!(v[i], 2),
        other => panic!("{:?}", other),
    }
    assert_eq!(v.try_binary_search(&4), Ok(Err(7)));
}

#[test]
fn search_by_key() {
    let v = vec![(1, "a"), (4, "b"), (9, "c"), (16, "d")];
    assert_eq!(v.try_binary_search_by_key(&9, |p| Some(p.0)), Ok(Ok(2)));
    assert_eq!(v.try_binary_search_by_key(&10, |p| Some(p.0)), Ok(Err(3)));
    assert_eq!(v.try_binary_search_by_key(&0, |p| Some(p.0)), Ok(Err(0)));
    let no_key_for_nine = |p: &(i32, &str)| if p.0 == 9 { None } else { Some(p.0) };
    assert!(v.try_binary_search_by_key(&10, no_key_for_nine).is_err());
    let no_key_for_one = |p: &(i32, &str)| if p.0 == 1 { None } else { Some(p.0) };
    assert_eq!(v.try_binary_search_by_key(&10, no_key_for_one), Ok(Err(3)));
    let empty: Vec<(i32, &str)> = Vec::new();
    assert_eq!(empty.try_binary_search_by_key(&1, |p| Some(p.0)), Ok(Err(0)));
}

#[test]
fn search_stops_at_a_refusal() {
    let v: Vec<u32> = (0..100).collect();
    let mut calls = 0;
    let r = v.try_binary_search_by(|a| {
        calls += 1;
        if calls == 3 {
            None
        } else {
            a.partial_cmp(&77)
        }
    });
    assert!(r.is_err());
    assert_eq!(calls, 3);
}

#[test]
fn search_probes_the_middle() {
    let v: Vec<u32> = (0..10).collect();
    let mut probed = Vec::new();
    let r = v.try_binary_search_by(|a| {
        probed.push(*a);
        a.partial_cmp(&6)
    });
    assert_eq!(r, Ok(Ok(6)));
    assert_eq!(probed, vec![5, 8, 7, 6]);
    let mut count = 0;
    let big: Vec<u32> = (0..1000).collect();
    let r = big.try_binary_search_by(|a| {
        count += 1;
        a.partial_cmp(&1000)
    });
    assert_eq!(r, Ok(Err(1000)));
    assert!(count <= 10);
}
