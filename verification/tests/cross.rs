use ta_algo::{ta_cross, ta_longcross, ta_rcross, ta_rlongcross, Context, Error, FLAG_SKIP_NAN};

/// An integer that orders numbers as the numbers are ordered; zero has key 0.
fn key(x: f64) -> Option<i64> {
    if x.is_nan() {
        None
    } else if x == 0.0 {
        Some(0)
    } else {
        let bits = x.to_bits() as i64;
        Some(if bits < 0 { bits ^ i64::MAX } else { bits })
    }
}

fn keys(data: &[f64]) -> Vec<Option<i64>> {
    data.iter().map(|x| key(*x)).collect()
}

fn assert_vec_eq_bool(a: &[bool], b: &[bool]) {
    assert_eq!(a, b, "\nLeft: {:?}\nRight: {:?}", a, b);
}

#[test]
fn test_cross() {
    let a = vec![1.0, 2.0, 4.0, 2.0];
    let b = vec![2.0, 2.0, 3.0, 1.0];
    let mut r = vec![false; 4];
    let ctx = Context::new(0, 0, 0);
    ta_cross(&ctx, &mut r, &keys(&a), &keys(&b)).unwrap();
    assert_vec_eq_bool(&r, &vec![false, true, false, false]);
}

#[test]
fn test_cross_skip_nan() {
    let a = vec![1.0, f64::NAN, 4.0];
    let b = vec![2.0, f64::NAN, 3.0];
    let mut r = vec![false; 3];
    let ctx = Context::new(0, 0, FLAG_SKIP_NAN);
    ta_cross(&ctx, &mut r, &keys(&a), &keys(&b)).unwrap();
    assert_vec_eq_bool(&r, &vec![false, false, true]);
}

#[test]
fn test_longcross() {
    let a = vec![1.0, 2.0, 3.0, 6.0];
    let b = vec![5.0, 5.0, 5.0, 5.0];
    let mut r = vec![false; 4];
    let ctx = Context::new(0, 0, 0);
    ta_longcross(&ctx, &mut r, &keys(&a), &keys(&b), 2).unwrap();
    assert_vec_eq_bool(&r, &vec![false, false, false, true]);
}

#[test]
fn key_orders_as_the_numbers() {
    let xs = [f64::NEG_INFINITY, -3.5, -1.0e-300, -0.0, 0.0, 1.0e-300, 2.0, f64::INFINITY];
    for i in 0..xs.len() {
        for j in 0..xs.len() {
            assert_eq!(xs[i] < xs[j], key(xs[i]) < key(xs[j]), "{} {}", xs[i], xs[j]);
            assert_eq!(xs[i] == xs[j], key(xs[i]) == key(xs[j]), "{} {}", xs[i], xs[j]);
        }
    }
    assert_eq!(key(0.0), Some(0));
    assert_eq!(key(f64::NAN), None);
}

#[test]
fn cross_without_skip_is_broken_by_a_missing_value() {
    let a = vec![1.0, f64::NAN, 4.0, 1.0, 5.0];
    let b = vec![2.0, f64::NAN, 3.0, 2.0, 5.0];
    let mut r = vec![true; 5];
    let ctx = Context::new(0, 0, 0);
    ta_cross(&ctx, &mut r, &keys(&a), &keys(&b)).unwrap();
    assert_vec_eq_bool(&r, &vec![false, false, false, false, true]);
}

#[test]
fn rcross_is_the_mirror_of_cross() {
    let a = vec![3.0, 2.0, 1.0, 4.0, 4.0];
    let b = vec![2.0, 2.0, 3.0, 3.0, 5.0];
    let mut r = vec![false; 5];
    let ctx = Context::new(0, 0, 0);
    ta_rcross(&ctx, &mut r, &keys(&a), &keys(&b)).unwrap();
    assert_vec_eq_bool(&r, &vec![false, true, false, false, true]);

    let mut down = vec![false; 5];
    ta_cross(&ctx, &mut down, &keys(&b), &keys(&a)).unwrap();
    assert_vec_eq_bool(&down, &r);
}

#[test]
fn cross_starts_at_the_context_start() {
    let a = vec![1.0, 2.0, 1.0, 3.0];
    let b = vec![2.0, 2.0, 2.0, 2.0];
    let mut r = vec![true; 4];
    let ctx = Context::new(2, 0, 0);
    ta_cross(&ctx, &mut r, &keys(&a), &keys(&b)).unwrap();
    assert_vec_eq_bool(&r, &vec![false, false, false, true]);

    // Where missing values are skipped the earlier positions are not looked at.
    let ctx = Context::new(3, 0, FLAG_SKIP_NAN);
    ta_cross(&ctx, &mut r, &keys(&a), &keys(&b)).unwrap();
    assert_vec_eq_bool(&r, &vec![false, false, false, false]);
}

#[test]
fn cross_runs_each_group_by_itself() {
    let a = vec![1.0, 3.0, 1.0, 3.0];
    let b = vec![2.0, 2.0, 2.0, 2.0];
    let mut r = vec![false; 4];
    let ctx = Context::new(0, 2, 0);
    ta_cross(&ctx, &mut r, &keys(&a), &keys(&b)).unwrap();
    assert_vec_eq_bool(&r, &vec![false, true, false, true]);

    let a = vec![3.0, 1.0, 3.0, 1.0];
    ta_cross(&ctx, &mut r, &keys(&a), &keys(&b)).unwrap();
    assert_vec_eq_bool(&r, &vec![false, false, false, false]);
}

#[test]
fn longcross_of_zero_is_the_arrival_alone() {
    let a = vec![1.0, 2.0, f64::NAN, 3.0];
    let b = vec![2.0, 2.0, 1.0, 1.0];
    let mut r = vec![false; 4];
    let ctx = Context::new(0, 0, 0);
    ta_longcross(&ctx, &mut r, &keys(&a), &keys(&b), 0).unwrap();
    assert_vec_eq_bool(&r, &vec![false, true, false, true]);
    ta_rlongcross(&ctx, &mut r, &keys(&a), &keys(&b), 0).unwrap();
    assert_vec_eq_bool(&r, &vec![true, true, false, false]);
}

#[test]
fn longcross_counts_through_missing_values_only_when_skipping() {
    let a = vec![1.0, f64::NAN, 1.0, 6.0];
    let b = vec![5.0, 5.0, 5.0, 5.0];
    let mut r = vec![false; 4];
    ta_longcross(&Context::new(0, 0, 0), &mut r, &keys(&a), &keys(&b), 2).unwrap();
    assert_vec_eq_bool(&r, &vec![false, false, false, false]);
    ta_longcross(&Context::new(0, 0, FLAG_SKIP_NAN), &mut r, &keys(&a), &keys(&b), 2).unwrap();
    assert_vec_eq_bool(&r, &vec![false, false, false, true]);
}

#[test]
fn longcross_looks_back_before_the_start() {
    let a = vec![1.0, 2.0, 3.0, 6.0];
    let b = vec![5.0, 5.0, 5.0, 5.0];
    let mut r = vec![false; 4];
    ta_longcross(&Context::new(3, 0, 0), &mut r, &keys(&a), &keys(&b), 3).unwrap();
    assert_vec_eq_bool(&r, &vec![false, false, false, true]);
    ta_longcross(&Context::new(3, 0, 0), &mut r, &keys(&a), &keys(&b), 4).unwrap();
    assert_vec_eq_bool(&r, &vec![false, false, false, false]);
}

#[test]
fn rlongcross_needs_the_whole_run() {
    let a = vec![9.0, 8.0, 7.0, 1.0, 9.0, 1.0];
    let b = vec![5.0, 5.0, 5.0, 5.0, 5.0, 5.0];
    let mut r = vec![false; 6];
    ta_rlongcross(&Context::new(0, 0, 0), &mut r, &keys(&a), &keys(&b), 2).unwrap();
    assert_vec_eq_bool(&r, &vec![false, false, false, true, false, false]);
}

#[test]
fn cross_rejects_unequal_lengths() {
    let a = keys(&[1.0, 2.0, 3.0]);
    let b = keys(&[1.0, 2.0]);
    let mut r = vec![true; 3];
    let ctx = Context::new(0, 0, 0);
    assert!(matches!(ta_cross(&ctx, &mut r, &a, &b), Err(Error::LengthMismatch(3, 3))));
    assert_eq!(r, vec![true; 3]);
    let mut short = vec![true; 2];
    assert!(matches!(ta_rcross(&ctx, &mut short, &a, &a), Err(Error::LengthMismatch(2, 3))));
    assert!(matches!(ta_longcross(&ctx, &mut short, &a, &a, 1), Err(Error::LengthMismatch(2, 3))));
    assert!(matches!(ta_rlongcross(&ctx, &mut short, &a, &a, 1), Err(Error::LengthMismatch(2, 3))));
}

#[test]
fn cross_rejects_a_series_that_is_not_whole_groups() {
    let a = keys(&[1.0, 2.0, 3.0]);
    let mut r = vec![true; 3];
    let ctx = Context::new(0, 2, 0);
    assert!(matches!(ta_cross(&ctx, &mut r, &a, &a), Err(Error::LengthMismatch(3, 2))));
    assert_eq!(r, vec![true; 3]);
}
