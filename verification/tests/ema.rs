use ta_algo::{
    ema_impl, ta_dma, ta_ema, ta_lwma, ta_sma, Context, EmaCell, Error, FLAG_SKIP_NAN,
    FLAG_STRICTLY_CYCLE,
};

fn present(data: &[f64]) -> Vec<bool> {
    data.iter().map(|x| !x.is_nan()).collect()
}

fn assert_vec_eq_nan(a: &[f64], b: &[f64]) {
    assert!(a.len() == b.len(), "length mismatch, a.len(): {}, b.len(): {}", a.len(), b.len());
    for i in 0..a.len() {
        assert!(
            (a[i] - b[i]).abs() < 0.000001 || (a[i].is_nan() && b[i].is_nan()),
            "index {} mismatch, a: {}, b: {}\nvec a: {:?}\nvec b: {:?}",
            i,
            a[i],
            b[i],
            a,
            b
        );
    }
}

/// Runs the recurrence along the steps that the library wrote.
fn smooth(ctx: &Context, x: &[f64], plan: &[EmaCell], alpha: f64, r: &mut [f64]) {
    let chunk = ctx.chunk_size(x.len());
    for i in 0..x.len() {
        let base = (i / chunk) * chunk;
        r[i] = match plan[i] {
            EmaCell::Missing => f64::NAN,
            EmaCell::FromSeed => alpha * x[i] + (1.0 - alpha) * x[base],
            EmaCell::From(j) => alpha * x[i] + (1.0 - alpha) * r[base + j],
        };
    }
}

fn ema(ctx: &Context, r: &mut [f64], x: &[f64], periods: usize) -> Result<(), Error> {
    let mut plan = vec![EmaCell::Missing; x.len()];
    ta_ema(ctx, &mut plan, &present(x), periods)?;
    smooth(ctx, x, &plan, 2.0 / (periods as f64 + 1.0), r);
    Ok(())
}

#[test]
fn test_ta_ema() {
    let input = vec![1.0, 2.0, 3.0, 4.0, 5.0];
    let periods = 3;
    let mut r = vec![0.0; input.len()];
    let ctx = Context::new(0, 0, 0);
    let _ = ema(&ctx, &mut r, &input, periods);
    assert_eq!(r[0], 1.0);
    assert_eq!(r[1], 1.5);
    assert_eq!(r[2], 2.25);
}

#[test]
fn ema_steps_chain_each_position_to_the_one_before() {
    let mask = present(&[1.0, 2.0, 3.0, 4.0]);
    let mut plan = vec![EmaCell::From(9); 4];
    ta_ema(&Context::new(0, 0, 0), &mut plan, &mask, 3).unwrap();
    assert_eq!(
        plan,
        vec![EmaCell::FromSeed, EmaCell::From(0), EmaCell::From(1), EmaCell::From(2)]
    );
    ta_ema(&Context::new(2, 0, 0), &mut plan, &mask, 3).unwrap();
    assert_eq!(
        plan,
        vec![EmaCell::Missing, EmaCell::Missing, EmaCell::FromSeed, EmaCell::From(2)]
    );
}

#[test]
fn ema_passes_over_missing_values_when_skipping() {
    let x = [1.0, f64::NAN, 3.0, f64::NAN, 5.0];
    let mut plan = vec![EmaCell::From(9); 5];
    ta_dma(&Context::new(0, 0, FLAG_SKIP_NAN), &mut plan, &present(&x)).unwrap();
    assert_eq!(
        plan,
        vec![
            EmaCell::FromSeed,
            EmaCell::Missing,
            EmaCell::From(0),
            EmaCell::Missing,
            EmaCell::From(2),
        ]
    );
    let mut r = vec![0.0; 5];
    smooth(&Context::new(0, 0, FLAG_SKIP_NAN), &x, &plan, 0.5, &mut r);
    assert_vec_eq_nan(&r, &vec![1.0, f64::NAN, 2.0, f64::NAN, 3.5]);

    // without skipping, a missing value spoils all that follows
    ta_dma(&Context::new(0, 0, 0), &mut plan, &present(&x)).unwrap();
    smooth(&Context::new(0, 0, 0), &x, &plan, 0.5, &mut r);
    assert_vec_eq_nan(&r, &vec![1.0, f64::NAN, f64::NAN, f64::NAN, f64::NAN]);
}

#[test]
fn ema_under_the_strict_flag_leaves_the_first_positions_out() {
    let mask = present(&[1.0, 2.0, 3.0, 4.0]);
    let mut plan = vec![EmaCell::From(9); 4];
    ema_impl(&Context::new(0, 0, FLAG_STRICTLY_CYCLE), &mut plan, &mask, 2).unwrap();
    assert_eq!(
        plan,
        vec![EmaCell::Missing, EmaCell::Missing, EmaCell::From(1), EmaCell::From(2)]
    );
    ema_impl(&Context::new(0, 2, FLAG_STRICTLY_CYCLE), &mut plan, &mask, 1).unwrap();
    assert_eq!(
        plan,
        vec![EmaCell::Missing, EmaCell::From(0), EmaCell::Missing, EmaCell::From(0)]
    );
}

#[test]
fn ema_rejects_a_factor_outside_the_unit_interval() {
    let mask = vec![true; 3];
    let mut plan = vec![EmaCell::From(9); 3];
    let ctx = Context::new(0, 0, 0);
    match ta_ema(&ctx, &mut plan, &mask, 0) {
        Err(Error::InvalidParameter(text)) => assert_eq!(text, "alpha must be between 0 and 1"),
        _ => panic!("the factor 2 was accepted"),
    }
    match ta_sma(&ctx, &mut plan, &mask, 2, 3) {
        Err(Error::InvalidParameter(text)) => assert_eq!(text, "alpha must be between 0 and 1"),
        _ => panic!("the factor 3/2 was accepted"),
    }
    assert!(matches!(ta_sma(&ctx, &mut plan, &mask, 0, 1), Err(Error::InvalidParameter(_))));
    assert_eq!(plan, vec![EmaCell::From(9); 3]);
    ta_sma(&ctx, &mut plan, &mask, 3, 3).unwrap();
    ta_sma(&ctx, &mut plan, &mask, 3, 0).unwrap();
    ta_sma(&ctx, &mut plan, &mask, 0, 0).unwrap();
    assert_eq!(plan, vec![EmaCell::FromSeed, EmaCell::From(0), EmaCell::From(1)]);
}

#[test]
fn ema_reports_the_length_before_the_factor() {
    let mask = vec![true; 3];
    let mut plan = vec![EmaCell::Missing; 2];
    let ctx = Context::new(0, 0, 0);
    assert!(matches!(ta_ema(&ctx, &mut plan, &mask, 0), Err(Error::LengthMismatch(2, 3))));
    assert!(matches!(ta_sma(&ctx, &mut plan, &mask, 1, 2), Err(Error::LengthMismatch(2, 3))));
    assert!(matches!(ta_dma(&ctx, &mut plan, &mask), Err(Error::LengthMismatch(2, 3))));
    assert!(matches!(ema_impl(&ctx, &mut plan, &mask, 1), Err(Error::LengthMismatch(2, 3))));
    let mut plan = vec![EmaCell::Missing; 3];
    assert!(matches!(
        ta_ema(&Context::new(0, 2, 0), &mut plan, &mask, 1),
        Err(Error::LengthMismatch(3, 2))
    ));
}

#[test]
fn lwma_of_one_is_the_series_itself() {
    let x = [1.0, f64::NAN, 3.0];
    let mut plan = vec![None; 3];
    ta_lwma(&Context::new(2, 0, FLAG_STRICTLY_CYCLE), &mut plan, &present(&x), 1).unwrap();
    let cells: Vec<Option<(usize, usize, usize)>> =
        plan.iter().map(|c| c.map(|w| (w.start, w.end, w.no_nan_count))).collect();
    assert_eq!(cells, vec![Some((0, 0, 1)), None, Some((2, 2, 1))]);
}
