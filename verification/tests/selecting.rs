use rand::distributions::{Distribution, Standard};
use rand::thread_rng;
use std::cmp::Ordering;
use try_partialord::min_max::TryMinMax;

#[test]
fn try_min_ok() {
    let rng = thread_rng();
    let v: Vec<f32> = Standard.sample_iter(rng).take(100).collect();
    let min = v.iter().try_min().unwrap();
    assert_eq!(min, v.iter().min_by(|a, b| a.partial_cmp(b).unwrap()));

    let iter = &mut v.iter();
    let min = iter.try_min().unwrap();
    assert_eq!(min, v.iter().min_by(|a, b| a.partial_cmp(b).unwrap()));
}

#[test]
fn try_min_error() {
    let rng = thread_rng();
    let mut v: Vec<f32> = Standard.sample_iter(rng).take(100).collect();
    v.push(f32::NAN);
    let min = v.iter().try_min();
    assert!(min.is_err());
}

#[test]
fn select_from_nothing() {
    let v: Vec<f64> = Vec::new();
    assert_eq!(v.iter().try_min(), Ok(None));
    assert_eq!(v.iter().try_max(), Ok(None));
    assert_eq!(v.iter().try_min_by(|_, _| None), Ok(None));
    assert_eq!(v.iter().try_max_by_key(|_| Some(0)), Ok(None));
    assert_eq!(
        try_partialord::min_max::try_select_by(v.iter(), |_, _| None, Ordering::Less),
        Ok(None)
    );
}

#[test]
fn select_from_one_compares_nothing() {
    let v = vec![f64::NAN];
    let mut calls = 0;
    let r = v.iter().try_min_by(|a, b| {
        calls += 1;
        a.partial_cmp(b)
    });
    assert!(r.unwrap().unwrap().is_nan());
    assert_eq!(calls, 0);
}

#[test]
fn least_and_greatest() {
    let v = vec![3.5_f64, -1.0, 8.25, 0.0, 8.0];
    assert_eq!(v.iter().try_min(), Ok(Some(&-1.0)));
    assert_eq!(v.iter().try_max(), Ok(Some(&8.25)));
    assert_eq!(v.into_iter().try_max(), Ok(Some(8.25)));
}

#[test]
fn of_equals_the_first_is_kept() {
    let v = vec![(2, 'a'), (1, 'b'), (3, 'c'), (1, 'd'), (3, 'e')];
    let first = |p: &&(i32, char)| Some(p.0);
    assert_eq!(v.iter().try_min_by_key(first), Ok(Some(&(1, 'b'))));
    assert_eq!(v.iter().try_max_by_key(first), Ok(Some(&(3, 'c'))));
    assert_eq!(v.iter().try_min_by(|a, b| a.0.partial_cmp(&b.0)), Ok(Some(&(1, 'b'))));
    assert_eq!(v.iter().try_max_by(|a, b| a.0.partial_cmp(&b.0)), Ok(Some(&(3, 'c'))));
}

#[test]
fn selection_follows_the_target() {
    let v = vec![4u8, 2, 9, 2, 9];
    let natural = |a: &&u8, b: &&u8| a.partial_cmp(b);
    assert_eq!(v.iter().try_select_by(natural, Ordering::Greater), Ok(Some(&2)));
    assert_eq!(v.iter().try_select_by(natural, Ordering::Less), Ok(Some(&9)));
    assert_eq!(v.iter().try_select_by(natural, Ordering::Equal), Ok(Some(&4)));
    let mut asked = Vec::new();
    let r = v.iter().try_select_by(
        |a, b| {
            asked.push((**a, **b));
            a.partial_cmp(b)
        },
        Ordering::Greater,
    );
    assert_eq!(r, Ok(Some(&2)));
    assert_eq!(asked, vec![(4, 2), (2, 9), (2, 2), (2, 9)]);
}

#[test]
fn one_nan_anywhere_fails_the_selection() {
    for n in 2..12usize {
        for at in 0..n {
            let mut v: Vec<f64> = (0..n).map(|x| x as f64).collect();
            v[at] = f64::NAN;
            assert!(v.iter().try_min().is_err());
            assert!(v.iter().try_max().is_err());
        }
    }
}

#[test]
fn an_item_without_key_fails_the_selection() {
    let key = |x: &&i32| if **x < 0 { None } else { Some(**x) };
    let v = vec![3, -1, 2, -7, 0];
    assert!(v.iter().try_min_by_key(key).is_err());
    assert!(v.iter().try_max_by_key(key).is_err());
    let w = vec![3, 1, 2, 7, 0];
    assert_eq!(w.iter().try_min_by_key(key), Ok(Some(&0)));
    assert_eq!(w.iter().try_max_by_key(key), Ok(Some(&7)));
    for at in 0..5 {
        let mut u = w.clone();
        u[at] = -1;
        assert!(u.iter().try_min_by_key(key).is_err());
        assert!(u.iter().try_max_by_key(key).is_err());
    }
    let nan_key = |x: &&i32| Some(if **x == 2 { f64::NAN } else { **x as f64 });
    assert!(v.iter().try_min_by_key(nan_key).is_err());
}

#[test]
fn one_item_is_selected_as_it_is() {
    let v = vec![f64::NAN];
    assert!(v.iter().try_min().unwrap().unwrap().is_nan());
    assert!(v.iter().try_max().unwrap().unwrap().is_nan());
    assert!(v.iter().try_max_by(|_, _| None).unwrap().unwrap().is_nan());
    assert!(try_partialord::min_max::try_select_by(v.iter(), |_, _| None, Ordering::Greater)
        .unwrap()
        .unwrap()
        .is_nan());
    let w = vec![-4];
    let none = |_: &&i32| None::<i32>;
    assert_eq!(w.iter().try_min_by_key(none), Ok(Some(&-4)));
    assert_eq!(w.iter().try_max_by_key(none), Ok(Some(&-4)));
}

#[test]
fn selection_stops_at_a_refusal() {
    let v = vec![5u8, 4, 3, 2, 1];
    let mut calls = 0;
    let r = v.iter().try_min_by(|a, b| {
        calls += 1;
        if calls == 3 {
            None
        } else {
            a.partial_cmp(b)
        }
    });
    assert!(r.is_err());
    assert_eq!(calls, 3);
}
