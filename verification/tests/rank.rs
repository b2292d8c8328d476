use std::cmp::Ordering;
use ta_algo::{ta_rank, ta_ts_rank, Context, Error, OrderedFloat, Ratio, FLAG_STRICTLY_CYCLE};

fn key(x: f64) -> Option<i64> {
    if x.is_nan() {
        None
    } else if x == 0.0 {
        Some(0)
    } else {
        let bits = x.to_bits() as i64;
        Some(if bits < 0 { bits ^ i64::MAX } else { bits })
    }
}

fn keys(data: &[f64]) -> Vec<Option<i64>> {
    data.iter().map(|x| key(*x)).collect()
}

fn counts(cells: &[Option<usize>]) -> Vec<f64> {
    cells.iter().map(|c| c.map(|n| n as f64).unwrap_or(f64::NAN)).collect()
}

fn quotients(cells: &[Option<Ratio>]) -> Vec<f64> {
    cells
        .iter()
        .map(|c| c.map(|q| q.num as f64 / q.den as f64).unwrap_or(f64::NAN))
        .collect()
}

fn assert_vec_eq_nan(a: &[f64], b: &[f64]) {
    assert!(a.len() == b.len(), "length mismatch, a.len(): {}, b.len(): {}", a.len(), b.len());
    for i in 0..a.len() {
        assert!(
            (a[i] - b[i]).abs() < 0.000001 || (a[i].is_nan() && b[i].is_nan()),
            "index {} mismatch, a: {}, b: {}\nvec a: {:?}\nvec b: {:?}",
            i,
            a[i],
            b[i],
            a,
            b
        );
    }
}

#[test]
fn test_ta_ts_rank_simple() {
    let input = vec![1.0, 2.0, 3.0, 4.0, 5.0];
    let mut r = vec![Some(0); input.len()];
    let ctx = Context::new(0, 0, 0);
    ta_ts_rank(&ctx, &mut r, &keys(&input), 3).unwrap();
    assert_vec_eq_nan(&counts(&r), &vec![1.0, 2.0, 3.0, 3.0, 3.0]);
}

#[test]
fn test_ta_ts_rank_periods_one() {
    let input = vec![1.0, 2.0, 3.0];
    let mut r = vec![Some(0); input.len()];
    let ctx = Context::new(0, 0, 0);
    ta_ts_rank(&ctx, &mut r, &keys(&input), 1).unwrap();
    assert_vec_eq_nan(&counts(&r), &vec![1.0, 1.0, 1.0]);
}

#[test]
fn test_ta_ts_rank_with_nan() {
    let input = vec![1.0, f64::NAN, 3.0, 4.0];
    let mut r = vec![Some(0); input.len()];
    let ctx = Context::new(0, 0, 0);
    ta_ts_rank(&ctx, &mut r, &keys(&input), 3).unwrap();
    // A missing value ranks above every number:
    // Position 0: [1] -> 1
    // Position 1: [1, NaN] -> NaN has rank 2
    // Position 2: [1, NaN, 3] -> 3 has rank 2, below the missing value
    // Position 3: [NaN, 3, 4] -> 4 has rank 2, below the missing value
    assert_vec_eq_nan(&counts(&r), &vec![1.0, 2.0, 2.0, 2.0]);
}

#[test]
fn test_ta_rank_same_value() {
    let input = vec![1.0, 2.0, 1.0];
    let mut r = vec![None; input.len()];
    let ctx = Context::new(0, 3, 0);
    ta_rank(&ctx, &mut r, &keys(&input)).unwrap();
    assert_vec_eq_nan(&quotients(&r), &vec![0.5, 1.0, 0.5]);
}

#[test]
fn test_ta_rank_simple() {
    let input = vec![3.0, 1.0, 2.0, 4.0];
    let mut r = vec![None; input.len()];
    let ctx = Context::new(0, 2, 0);
    ta_rank(&ctx, &mut r, &keys(&input)).unwrap();
    assert_vec_eq_nan(&quotients(&r), &vec![1.0, 0.5, 0.5, 1.0]);
}

#[test]
fn test_ta_rank_three_groups() {
    let input = vec![3.0, 1.0, 2.0, 5.0, 4.0, 6.0];
    let mut r = vec![None; input.len()];
    let ctx = Context::new(0, 3, 0);
    ta_rank(&ctx, &mut r, &keys(&input)).unwrap();
    assert_vec_eq_nan(
        &quotients(&r),
        &vec![2.0 / 3.0, 1.0 / 3.0, 1.0 / 3.0, 2.0 / 3.0, 3.0 / 3.0, 3.0 / 3.0],
    );
}

#[test]
fn rank_writes_exact_fractions() {
    let input = keys(&[1.0, 2.0, 1.0]);
    let mut r = vec![None; 3];
    ta_rank(&Context::new(0, 3, 0), &mut r, &input).unwrap();
    assert_eq!(
        r,
        vec![
            Some(Ratio { num: 3, den: 6 }),
            Some(Ratio { num: 6, den: 6 }),
            Some(Ratio { num: 3, den: 6 }),
        ]
    );
}

#[test]
fn rank_puts_missing_values_last_in_group_order() {
    // one place, five groups: NaN, 2, NaN, 1, 2
    let input = keys(&[f64::NAN, 2.0, f64::NAN, 1.0, 2.0]);
    let mut r = vec![None; 5];
    ta_rank(&Context::new(0, 5, 0), &mut r, &input).unwrap();
    // ranks: 1 -> 1; the two 2s share (2 + 3) / 2; the missing ones take 4 and 5
    assert_vec_eq_nan(&quotients(&r), &vec![4.0 / 5.0, 2.5 / 5.0, 5.0 / 5.0, 1.0 / 5.0, 2.5 / 5.0]);
}

#[test]
fn rank_of_one_group_is_the_running_rank() {
    let input = keys(&[2.0, 1.0, 3.0, 2.0]);
    let mut r = vec![None; 4];
    ta_rank(&Context::new(1, 1, 0), &mut r, &input).unwrap();
    assert_eq!(
        r,
        vec![
            None,
            Some(Ratio { num: 1, den: 1 }),
            Some(Ratio { num: 2, den: 1 }),
            Some(Ratio { num: 2, den: 1 }),
        ]
    );
}

#[test]
fn ts_rank_of_equal_values_counts_them() {
    let input = keys(&[2.0, 2.0, 1.0, 2.0]);
    let mut r = vec![None; 4];
    ta_ts_rank(&Context::new(0, 0, 0), &mut r, &input, 3).unwrap();
    assert_eq!(r, vec![Some(1), Some(2), Some(1), Some(3)]);
    ta_ts_rank(&Context::new(0, 0, 0), &mut r, &input, 0).unwrap();
    assert_eq!(r, vec![Some(1), Some(2), Some(1), Some(4)]);
}

#[test]
fn ts_rank_under_the_strict_flag_waits_for_a_whole_window() {
    let input = keys(&[3.0, 1.0, 2.0, 5.0]);
    let mut r = vec![None; 4];
    ta_ts_rank(&Context::new(0, 0, FLAG_STRICTLY_CYCLE), &mut r, &input, 3).unwrap();
    assert_eq!(r, vec![None, None, Some(2), Some(3)]);
    // the window does not reach back before the start
    ta_ts_rank(&Context::new(1, 0, FLAG_STRICTLY_CYCLE), &mut r, &input, 3).unwrap();
    assert_eq!(r, vec![None, None, None, Some(3)]);
    ta_ts_rank(&Context::new(1, 0, 0), &mut r, &input, 3).unwrap();
    assert_eq!(r, vec![None, Some(1), Some(2), Some(3)]);
}

#[test]
fn rank_rejects_bad_shapes() {
    let input = keys(&[1.0, 2.0, 3.0]);
    let mut r = vec![None; 3];
    assert!(matches!(ta_rank(&Context::new(0, 2, 0), &mut r, &input), Err(Error::LengthMismatch(3, 2))));
    let mut short = vec![None; 2];
    assert!(matches!(ta_rank(&Context::new(0, 3, 0), &mut short, &input), Err(Error::LengthMismatch(2, 3))));
    let mut ranks = vec![Some(7usize); 2];
    assert!(matches!(
        ta_ts_rank(&Context::new(0, 0, 0), &mut ranks, &input, 1),
        Err(Error::LengthMismatch(2, 3))
    ));
    assert_eq!(ranks, vec![Some(7), Some(7)]);
}

#[test]
fn ordered_float_puts_the_missing_value_last() {
    let nan = OrderedFloat::new(key(f64::NAN));
    let inf = OrderedFloat::new(key(f64::INFINITY));
    let one = OrderedFloat::new(key(1.0));
    let two = OrderedFloat::from(key(2.0));
    assert_eq!(one.cmp(&two), Ordering::Less);
    assert_eq!(two.cmp(&one), Ordering::Greater);
    assert_eq!(one.cmp(&one), Ordering::Equal);
    assert_eq!(two.cmp(&inf), Ordering::Less);
    assert_eq!(inf.cmp(&nan), Ordering::Less);
    assert_eq!(nan.cmp(&inf), Ordering::Greater);
    assert_eq!(nan.cmp(&nan), Ordering::Equal);
    assert_eq!(two, OrderedFloat::new(key(2.0)));
}
