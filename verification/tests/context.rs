use ta_algo::segment::check_shape;
use ta_algo::{ta_ma, ta_stddev, ta_sum, Context, Error, Item, FLAG_SKIP_NAN, FLAG_STRICTLY_CYCLE};

#[test]
fn start_counts_from_either_end() {
    assert_eq!(Context::new(0, 0, 0).start(10), 0);
    assert_eq!(Context::new(3, 0, 0).start(10), 3);
    assert_eq!(Context::new(9, 0, 0).start(10), 9);
    assert_eq!(Context::new(10, 0, 0).start(10), 9);
    assert_eq!(Context::new(i32::MAX, 0, 0).start(10), 9);
    assert_eq!(Context::new(-1, 0, 0).start(10), 9);
    assert_eq!(Context::new(-10, 0, 0).start(10), 0);
    assert_eq!(Context::new(-11, 0, 0).start(10), 0);
    assert_eq!(Context::new(i32::MIN, 0, 0).start(10), 0);
}

#[test]
fn start_of_an_empty_series_is_zero() {
    assert_eq!(Context::new(0, 0, 0).start(0), 0);
    assert_eq!(Context::new(5, 0, 0).start(0), 0);
    assert_eq!(Context::new(-5, 0, 0).start(0), 0);
}

#[test]
fn start_of_a_long_series() {
    let total = usize::MAX;
    assert_eq!(Context::new(7, 0, 0).start(total), 7);
    assert_eq!(Context::new(-1, 0, 0).start(total), total - 1);
    assert_eq!(Context::new(i32::MIN, 0, 0).start(total), total - (1usize << 31));
}

#[test]
fn groups_are_one_at_least() {
    assert_eq!(Context::new(0, 0, 0).groups(), 1);
    assert_eq!(Context::new(0, 1, 0).groups(), 1);
    assert_eq!(Context::new(0, 7, 0).groups(), 7);
    assert_eq!(Context::new(0, u32::MAX, 0).groups(), u32::MAX as usize);
}

#[test]
fn chunk_size_is_the_whole_quotient() {
    assert_eq!(Context::new(0, 0, 0).chunk_size(10), 10);
    assert_eq!(Context::new(0, 2, 0).chunk_size(10), 5);
    assert_eq!(Context::new(0, 3, 0).chunk_size(10), 3);
    assert_eq!(Context::new(0, 11, 0).chunk_size(10), 0);
    assert_eq!(Context::new(0, 4, 0).chunk_size(0), 0);
}

#[test]
fn flags_are_read_bit_by_bit() {
    assert_eq!(FLAG_SKIP_NAN, 1);
    assert_eq!(FLAG_STRICTLY_CYCLE, 2);
    let none = Context::new(0, 0, 0);
    assert!(!none.skip_nan() && !none.strictly_cycle());
    let skip = Context::new(0, 0, FLAG_SKIP_NAN);
    assert!(skip.skip_nan() && !skip.strictly_cycle());
    let strict = Context::new(0, 0, FLAG_STRICTLY_CYCLE);
    assert!(!strict.skip_nan() && strict.strictly_cycle());
    // the other bits are ignored
    let all = Context::new(0, 0, u64::MAX);
    assert!(all.skip_nan() && all.strictly_cycle());
    let high = Context::new(0, 0, !3);
    assert!(!high.skip_nan() && !high.strictly_cycle());
}

#[test]
fn context_is_made_from_its_parts() {
    let ctx = Context::from((-2, 3, 2));
    assert_eq!((ctx._start, ctx._groups, ctx._flags), (-2, 3, 2));
    let ctx = Context::new(4, 5, 6);
    assert_eq!((ctx._start, ctx._groups, ctx._flags), (4, 5, 6));
    let ctx = Context::default();
    assert_eq!((ctx._start, ctx._groups, ctx._flags), (0, 0, 0));
}

#[test]
fn shape_is_whole_groups_or_an_error() {
    assert!(matches!(check_shape(&Context::new(0, 0, 0), 7), Ok(7)));
    assert!(matches!(check_shape(&Context::new(0, 3, 0), 12), Ok(4)));
    assert!(matches!(check_shape(&Context::new(0, 3, 0), 0), Ok(0)));
    assert!(matches!(check_shape(&Context::new(0, 3, 0), 13), Err(Error::LengthMismatch(13, 12))));
    assert!(matches!(check_shape(&Context::new(0, 3, 0), 2), Err(Error::LengthMismatch(2, 0))));
}

#[test]
fn each_error_has_an_input_that_gives_it() {
    let ctx = Context::new(0, 0, 0);
    let mut r: Vec<Option<Item>> = vec![None; 2];
    assert!(matches!(ta_sum(&ctx, &mut r, &[true; 3], 2), Err(Error::LengthMismatch(2, 3))));
    let mut r: Vec<Option<Item>> = vec![None; 3];
    match ta_stddev(&ctx, &mut r, &[true; 3], 0) {
        Err(Error::InvalidPeriod(text)) => assert_eq!(text, "periods must be greater than 0"),
        _ => panic!("a window of no sample was accepted"),
    }
    match ta_algo::ta_ema(&ctx, &mut [], &[], 0) {
        Err(Error::InvalidParameter(text)) => assert_eq!(text, "alpha must be between 0 and 1"),
        _ => panic!("the factor 2 was accepted"),
    }
    assert!(matches!(ta_ma(&Context::new(0, 2, 0), &mut r, &[true; 3], 2), Err(Error::LengthMismatch(3, 2))));
}

#[test]
fn the_length_is_reported_before_the_period() {
    let ctx = Context::new(0, 0, 0);
    let mut r: Vec<Option<Item>> = vec![None; 2];
    assert!(matches!(ta_ma(&ctx, &mut r, &[true; 3], 0), Err(Error::LengthMismatch(2, 3))));
    let mut r: Vec<Option<Item>> = vec![None; 3];
    assert!(matches!(ta_ma(&Context::new(0, 2, 0), &mut r, &[true; 3], 0), Err(Error::InvalidPeriod(_))));
}
