use ta_algo::extremum::run_extremum;
use ta_algo::{
    ta_hhv, ta_hhvbars, ta_llv, ta_llvbars, Context, Error, FLAG_SKIP_NAN, FLAG_STRICTLY_CYCLE,
};

fn key(x: f64) -> Option<i64> {
    if x.is_nan() {
        None
    } else if x == 0.0 {
        Some(0)
    } else {
        let bits = x.to_bits() as i64;
        Some(if bits < 0 { bits ^ i64::MAX } else { bits })
    }
}

fn number(k: Option<i64>) -> f64 {
    match k {
        None => f64::NAN,
        Some(k) => f64::from_bits((if k < 0 { k ^ i64::MAX } else { k }) as u64),
    }
}

fn keys(data: &[f64]) -> Vec<Option<i64>> {
    data.iter().map(|x| key(*x)).collect()
}

fn numbers(cells: &[Option<i64>]) -> Vec<f64> {
    cells.iter().map(|c| number(*c)).collect()
}

fn counts(cells: &[Option<usize>]) -> Vec<f64> {
    cells.iter().map(|c| c.map(|n| n as f64).unwrap_or(f64::NAN)).collect()
}

fn assert_vec_eq_nan(a: &[f64], b: &[f64]) {
    assert!(a.len() == b.len(), "length mismatch, a.len(): {}, b.len(): {}", a.len(), b.len());
    for i in 0..a.len() {
        assert!(
            (a[i] - b[i]).abs() < 0.000001 || (a[i].is_nan() && b[i].is_nan()),
            "index {} mismatch, a: {}, b: {}\nvec a: {:?}\nvec b: {:?}",
            i,
            a[i],
            b[i],
            a,
            b
        );
    }
}

fn hhv(ctx: &Context, input: &[f64], periods: usize) -> Vec<f64> {
    let mut r = vec![Some(0); input.len()];
    ta_hhv(ctx, &mut r, &keys(input), periods).unwrap();
    numbers(&r)
}

fn llv(ctx: &Context, input: &[f64], periods: usize) -> Vec<f64> {
    let mut r = vec![Some(0); input.len()];
    ta_llv(ctx, &mut r, &keys(input), periods).unwrap();
    numbers(&r)
}

fn hhvbars(ctx: &Context, input: &[f64], periods: usize) -> Vec<f64> {
    let mut r = vec![Some(0); input.len()];
    ta_hhvbars(ctx, &mut r, &keys(input), periods).unwrap();
    counts(&r)
}

fn llvbars(ctx: &Context, input: &[f64], periods: usize) -> Vec<f64> {
    let mut r = vec![Some(0); input.len()];
    ta_llvbars(ctx, &mut r, &keys(input), periods).unwrap();
    counts(&r)
}

#[test]
fn test_hhv_simple() {
    let input = vec![1.0, 3.0, 2.0, 5.0, 4.0, 6.0];
    let ctx = Context::new(0, 0, 0);
    let r = hhv(&ctx, &input, 3);
    assert_vec_eq_nan(&r, &vec![1.0, 3.0, 3.0, 5.0, 5.0, 6.0]);
}

#[test]
fn test_hhvbars_simple() {
    let input = vec![10.0, 12.0, 11.0, 13.0, 8.0];
    let ctx = Context::new(0, 0, 0);
    let r = hhvbars(&ctx, &input, 3);
    assert_vec_eq_nan(&r, &vec![0.0, 0.0, 1.0, 0.0, 1.0]);
}

#[test]
fn test_llv_simple() {
    let input = vec![5.0, 3.0, 4.0, 1.0, 2.0];
    let ctx = Context::new(0, 0, 0);
    let r = llv(&ctx, &input, 3);
    assert_vec_eq_nan(&r, &vec![5.0, 3.0, 3.0, 1.0, 1.0]);
}

#[test]
fn test_cumulative_n0() {
    let input = vec![1.0, 5.0, 3.0, 6.0, 2.0];
    let ctx = Context::new(0, 0, 0);
    let r = hhv(&ctx, &input, 0);
    assert_vec_eq_nan(&r, &vec![1.0, 5.0, 5.0, 6.0, 6.0]);

    let r_bars = hhvbars(&ctx, &input, 0);
    assert_vec_eq_nan(&r_bars, &vec![0.0, 0.0, 1.0, 0.0, 1.0]);
}

#[test]
fn test_skip_nan() {
    let input = vec![1.0, 2.0, f64::NAN, 4.0, 0.0];
    let ctx = Context::new(0, 0, FLAG_SKIP_NAN);
    let r = hhv(&ctx, &input, 3);
    assert_vec_eq_nan(&r, &vec![1.0, 2.0, f64::NAN, 4.0, 4.0]);
}

#[test]
fn test_strict_cycle() {
    let input = vec![1.0, 2.0, 3.0, 4.0];
    let ctx = Context::new(0, 0, FLAG_STRICTLY_CYCLE);
    let r = hhv(&ctx, &input, 3);
    assert_vec_eq_nan(&r, &vec![f64::NAN, f64::NAN, 3.0, 4.0]);
}

#[test]
fn hhv_boundary_scenario() {
    let r = hhv(&Context::new(0, 0, 0), &[1.0, 3.0, 2.0, 5.0, 4.0, 6.0], 3);
    assert_eq!(r, vec![1.0, 3.0, 3.0, 5.0, 5.0, 6.0]);
}

#[test]
fn ties_go_to_the_newest_position() {
    let input = vec![2.0, 2.0, 1.0, 2.0, 1.0, 1.0];
    let ctx = Context::new(0, 0, 0);
    assert_vec_eq_nan(&hhvbars(&ctx, &input, 3), &vec![0.0, 0.0, 1.0, 0.0, 1.0, 2.0]);
    assert_vec_eq_nan(&llvbars(&ctx, &input, 3), &vec![0.0, 0.0, 0.0, 1.0, 0.0, 0.0]);
    assert_vec_eq_nan(&hhvbars(&ctx, &input, 0), &vec![0.0, 0.0, 1.0, 0.0, 1.0, 2.0]);
}

#[test]
fn a_missing_value_clears_the_window_it_is_in() {
    let input = vec![1.0, 2.0, f64::NAN, 4.0, 0.0, 3.0, 1.0];
    let ctx = Context::new(0, 0, 0);
    let nan = f64::NAN;
    assert_vec_eq_nan(&hhv(&ctx, &input, 3), &vec![1.0, 2.0, nan, nan, nan, 4.0, 3.0]);
    assert_vec_eq_nan(&llv(&ctx, &input, 3), &vec![1.0, 1.0, nan, nan, nan, 0.0, 0.0]);
    // the running extreme never recovers, unless missing values are skipped
    assert_vec_eq_nan(&hhv(&ctx, &input, 0), &vec![1.0, 2.0, nan, nan, nan, nan, nan]);
    let skip = Context::new(0, 0, FLAG_SKIP_NAN);
    assert_vec_eq_nan(&hhv(&skip, &input, 0), &vec![1.0, 2.0, 2.0, 4.0, 4.0, 4.0, 4.0]);
    assert_vec_eq_nan(&llvbars(&skip, &input, 0), &vec![0.0, 1.0, 2.0, 3.0, 0.0, 1.0, 2.0]);
}

#[test]
fn strict_skip_wants_a_window_without_gaps() {
    let input = vec![1.0, 2.0, f64::NAN, 4.0, 0.0, 3.0];
    let ctx = Context::new(0, 0, FLAG_SKIP_NAN | FLAG_STRICTLY_CYCLE);
    let nan = f64::NAN;
    assert_vec_eq_nan(&hhv(&ctx, &input, 3), &vec![nan, nan, nan, nan, nan, 4.0]);
}

#[test]
fn the_window_reaches_back_before_the_start() {
    let input = vec![9.0, 1.0, 2.0, 3.0, 1.0];
    let ctx = Context::new(2, 0, 0);
    let nan = f64::NAN;
    assert_vec_eq_nan(&hhv(&ctx, &input, 3), &vec![nan, nan, 9.0, 3.0, 3.0]);
    assert_vec_eq_nan(&hhvbars(&ctx, &input, 3), &vec![nan, nan, 2.0, 0.0, 1.0]);
    // but not where missing values are skipped, nor for the running extreme
    let skip = Context::new(2, 0, FLAG_SKIP_NAN);
    assert_vec_eq_nan(&hhv(&skip, &input, 3), &vec![nan, nan, 2.0, 3.0, 3.0]);
    assert_vec_eq_nan(&hhv(&ctx, &input, 0), &vec![nan, nan, 2.0, 3.0, 3.0]);
}

#[test]
fn a_missing_value_before_the_start_counts_once() {
    let input = vec![f64::NAN, 1.0, 2.0, 3.0, 1.0];
    let ctx = Context::new(2, 0, 0);
    let nan = f64::NAN;
    assert_vec_eq_nan(&hhv(&ctx, &input, 3), &vec![nan, nan, nan, 3.0, 3.0]);
}

#[test]
fn negative_numbers_and_zero_are_ordered() {
    let input = vec![-1.0, -3.0, 0.0, -0.5, -2.0];
    let ctx = Context::new(0, 0, 0);
    assert_vec_eq_nan(&llv(&ctx, &input, 2), &vec![-1.0, -3.0, -3.0, -0.5, -2.0]);
    assert_vec_eq_nan(&hhv(&ctx, &input, 2), &vec![-1.0, -1.0, 0.0, 0.0, -0.5]);
}

#[test]
fn extremes_of_groups_are_taken_apart() {
    let input = vec![1.0, 5.0, 3.0, 2.0, 1.0, 4.0];
    let ctx = Context::new(0, 2, 0);
    assert_vec_eq_nan(&hhv(&ctx, &input, 2), &vec![1.0, 5.0, 5.0, 2.0, 2.0, 4.0]);
    assert_vec_eq_nan(&hhvbars(&ctx, &input, 0), &vec![0.0, 0.0, 1.0, 0.0, 1.0, 0.0]);
    let mut places = vec![None; 6];
    run_extremum(&ctx, &mut places, &keys(&input), 2, false).unwrap();
    assert_eq!(places, vec![Some(0), Some(0), Some(2), Some(0), Some(1), Some(1)]);
}

#[test]
fn extremum_rejects_bad_shapes() {
    let ctx = Context::new(0, 0, 0);
    let mut r = vec![Some(1i64); 2];
    assert!(matches!(ta_hhv(&ctx, &mut r, &keys(&[1.0; 3]), 2), Err(Error::LengthMismatch(2, 3))));
    assert!(matches!(ta_llv(&ctx, &mut r, &keys(&[1.0; 3]), 2), Err(Error::LengthMismatch(2, 3))));
    assert_eq!(r, vec![Some(1), Some(1)]);
    let mut b = vec![Some(1usize); 3];
    let ctx = Context::new(0, 2, 0);
    assert!(matches!(ta_hhvbars(&ctx, &mut b, &keys(&[1.0; 3]), 2), Err(Error::LengthMismatch(3, 2))));
    assert!(matches!(ta_llvbars(&ctx, &mut b, &keys(&[1.0; 3]), 2), Err(Error::LengthMismatch(3, 2))));
    assert_eq!(b, vec![Some(1), Some(1), Some(1)]);
}
