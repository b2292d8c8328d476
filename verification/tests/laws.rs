use ta_algo::extremum::run_extremum;
use ta_algo::rolling::{emits, Rule};
use ta_algo::window_steps;
use ta_algo::{
    ema_impl, ta_barslast, ta_barssince, ta_corr, ta_count, ta_cov, ta_cross, ta_fret, ta_hhv,
    ta_intercept, ta_lwma, ta_ma, ta_product, ta_ref, ta_slope, ta_stddev, ta_sum, ta_sumif,
    ta_ts_correlation, ta_ts_rank, ta_var, Context, EmaCell, Error, Item, SkipNanWindow,
    FLAG_SKIP_NAN, FLAG_STRICTLY_CYCLE,
};

type Op = fn(&Context, &mut [Option<Item>], &[bool], usize) -> Result<(), Error>;

const OPS: [(&str, Op); 9] = [
    ("sum", ta_sum),
    ("product", ta_product),
    ("ma", ta_ma),
    ("lwma", ta_lwma),
    ("var", ta_var),
    ("stddev", ta_stddev),
    ("slope", ta_slope),
    ("intercept", ta_intercept),
    ("ts_correlation", ta_ts_correlation),
];

/// A series of small numbers with some missing, the same at every run.
fn series(n: usize, seed: u64) -> Vec<f64> {
    let mut state = seed.wrapping_mul(6364136223846793005).wrapping_add(1442695040888963407);
    let mut out = vec![];
    for _ in 0..n {
        state = state.wrapping_mul(6364136223846793005).wrapping_add(1442695040888963407);
        let draw = (state >> 33) % 16;
        out.push(if draw < 3 { f64::NAN } else { (draw as f64 - 8.0) / 4.0 });
    }
    out
}

fn present(data: &[f64]) -> Vec<bool> {
    data.iter().map(|x| !x.is_nan()).collect()
}

fn plan(op: Op, ctx: &Context, mask: &[bool], periods: usize) -> Vec<Option<Item>> {
    let mut r = vec![Some(Item::new(7, 7, 7, 7)); mask.len()];
    op(ctx, &mut r, mask, periods).unwrap();
    r
}

fn contexts() -> Vec<Context> {
    let mut all = vec![];
    for start in [0, 1, 4, -3] {
        for flags in [0, FLAG_SKIP_NAN, FLAG_STRICTLY_CYCLE, FLAG_SKIP_NAN | FLAG_STRICTLY_CYCLE] {
            all.push(Context::new(start, 0, flags));
        }
    }
    all
}

#[test]
fn results_are_as_long_as_inputs() {
    let x = present(&series(12, 1));
    for ctx in contexts() {
        for (_, op) in OPS {
            assert_eq!(plan(op, &ctx, &x, 3).len(), 12);
        }
    }
}

#[test]
fn nothing_is_written_before_the_start() {
    let x = series(12, 2);
    let mask = present(&x);
    for start in [1, 4, -3, 11] {
        for flags in 0..4 {
            let ctx = Context::new(start, 2, flags);
            let first = ctx.start(6);
            for (name, op) in OPS {
                for periods in [2, 3, 7] {
                    let r = plan(op, &ctx, &mask, periods);
                    for i in 0..12 {
                        if i % 6 < first {
                            assert_eq!(r[i], None, "{} at {}", name, i);
                        }
                    }
                }
            }
            let mut bars = vec![Some(1usize); 12];
            ta_barslast(&ctx, &mut bars, &mask).unwrap();
            let mut since = vec![Some(1usize); 12];
            ta_barssince(&ctx, &mut since, &mask).unwrap();
            let mut counts = vec![Some(1usize); 12];
            ta_count(&ctx, &mut counts, &mask, 3).unwrap();
            let mut steps = vec![EmaCell::FromSeed; 12];
            ema_impl(&ctx, &mut steps, &mask, 3).unwrap();
            let mut ranks = vec![Some(1usize); 12];
            let keys: Vec<Option<i64>> = x.iter().map(|v| if v.is_nan() { None } else { Some((v * 4.0) as i64) }).collect();
            ta_ts_rank(&ctx, &mut ranks, &keys, 3).unwrap();
            let mut high = vec![Some(1i64); 12];
            ta_hhv(&ctx, &mut high, &keys, 3).unwrap();
            let mut crossed = vec![true; 12];
            ta_cross(&ctx, &mut crossed, &keys, &keys).unwrap();
            let mut shifted = vec![Some(1i64); 12];
            ta_ref(&ctx, &mut shifted, &keys, 0).unwrap();
            let mut trades = vec![Some(ta_algo::Trade { entry: 0, exit: 0 }); 12];
            ta_fret(&ctx, &mut trades, &keys, &keys, &keys, &keys, 0, 1).unwrap();
            for i in 0..12 {
                if i % 6 < first {
                    assert_eq!(bars[i], None);
                    assert_eq!(since[i], None);
                    assert_eq!(counts[i], None);
                    assert_eq!(steps[i], EmaCell::Missing);
                    assert_eq!(ranks[i], None);
                    assert_eq!(high[i], None);
                    assert!(!crossed[i]);
                    assert_eq!(shifted[i], None);
                    assert_eq!(trades[i], None);
                }
            }
        }
    }
}

#[test]
fn every_window_is_the_one_a_look_at_the_series_gives() {
    for seed in 0..20 {
        let mask = present(&series(15, seed));
        for ctx in contexts() {
            let s = ctx.start(15);
            for (name, op) in OPS {
                for periods in [2, 3, 5] {
                    let r = plan(op, &ctx, &mask, periods);
                    for i in 0..15 {
                        if let Some(w) = r[i] {
                            let held = (w.start..=w.end).filter(|k| mask[*k]).count();
                            assert_eq!(w.end, i, "{}", name);
                            assert!(w.start <= i && mask[i]);
                            assert_eq!(w.no_nan_count, held);
                            if ctx.skip_nan() {
                                assert!(mask[w.start] && w.start >= s && held <= periods);
                                let left_out = (s..w.start).filter(|k| mask[*k]).count();
                                assert!(held == periods || left_out == 0);
                            } else {
                                assert_eq!(w.start, (i + 1).saturating_sub(periods));
                                assert_eq!(held, i + 1 - w.start);
                            }
                        }
                    }
                }
            }
        }
    }
}

#[test]
fn running_state_gives_what_a_fresh_sum_gives() {
    for seed in 0..20 {
        let x = series(18, seed);
        let mask = present(&x);
        for ctx in contexts() {
            for periods in [1, 2, 4] {
                let r = plan(ta_sum, &ctx, &mask, periods);
                // step through the segment as a caller with running state does
                let start = ctx.start(18);
                let mut sum = 0.0;
                let mut running = vec![f64::NAN; 18];
                if ctx.skip_nan() {
                    let mut iter = SkipNanWindow::new(&mask, periods, start);
                    while let Some(w) = iter.next() {
                        if mask[w.end] {
                            sum += x[w.end];
                        }
                        for k in w.prev_start..w.start {
                            if mask[k] {
                                sum -= x[k];
                            }
                        }
                        if let Some(cell) = r[w.end] {
                            assert_eq!(cell, w);
                            running[w.end] = sum;
                        }
                    }
                } else {
                    for k in (start + 1).saturating_sub(periods)..start {
                        if mask[k] {
                            sum += x[k];
                        }
                    }
                    for i in start..18 {
                        if mask[i] {
                            sum += x[i];
                        }
                        if r[i].is_some() {
                            running[i] = sum;
                        }
                        if i + 1 >= periods && mask[i + 1 - periods] {
                            sum -= x[i + 1 - periods];
                        }
                    }
                }
                for i in 0..18 {
                    match r[i] {
                        None => assert!(running[i].is_nan()),
                        Some(w) => {
                            let fresh: f64 = (w.start..=w.end).filter(|k| mask[*k]).map(|k| x[k]).sum();
                            assert_eq!(running[i], fresh);
                        }
                    }
                }
            }
        }
    }
}

#[test]
fn the_step_rule_is_the_one_the_schedules_follow() {
    let rule = Rule { least: 1, partial: true, exact: false, every: false };
    for seed in 0..10 {
        let mask = present(&series(12, seed));
        for flags in [FLAG_SKIP_NAN, FLAG_SKIP_NAN | FLAG_STRICTLY_CYCLE] {
            let ctx = Context::new(0, 0, flags);
            let r = plan(ta_sum, &ctx, &mask, 3);
            let mut iter = SkipNanWindow::new(&mask, 3, 0);
            while let Some(w) = iter.next() {
                let due = emits(&rule, true, ctx.strictly_cycle(), 3, &w, mask[w.end]);
                assert_eq!(r[w.end], if due { Some(w) } else { None });
            }
        }
    }
}

#[test]
fn strict_windows_are_full() {
    for seed in 0..20 {
        let mask = present(&series(15, seed));
        for flags in [FLAG_STRICTLY_CYCLE, FLAG_SKIP_NAN | FLAG_STRICTLY_CYCLE] {
            for start in [0, 3] {
                let ctx = Context::new(start, 0, flags);
                for (name, op) in OPS {
                    for periods in [1, 2, 4] {
                        for cell in plan(op, &ctx, &mask, periods) {
                            if let Some(w) = cell {
                                assert_eq!(w.no_nan_count, periods, "{}", name);
                                assert_eq!(w.end + 1 - w.start, periods, "{}", name);
                            }
                        }
                    }
                }
                let keys: Vec<Option<i64>> = mask.iter().map(|m| if *m { Some(1) } else { None }).collect();
                let mut counts = vec![None; 15];
                ta_count(&ctx, &mut counts, &mask, 4).unwrap();
                let mut ranks = vec![None; 15];
                ta_ts_rank(&ctx, &mut ranks, &keys, 4).unwrap();
                let mut steps = vec![EmaCell::Missing; 15];
                ema_impl(&ctx, &mut steps, &mask, 4).unwrap();
                for i in 0..15 {
                    if i < 3 {
                        assert_eq!(counts[i], None);
                        assert_eq!(steps[i], EmaCell::Missing);
                    }
                    if i < ctx.start(15) + 3 {
                        assert_eq!(ranks[i], None);
                    }
                }
            }
        }
    }
}

#[test]
fn skipping_is_as_good_as_taking_the_missing_values_out() {
    for seed in 0..30 {
        let x = series(16, seed);
        let mask = present(&x);
        let packed: Vec<f64> = x.iter().copied().filter(|v| !v.is_nan()).collect();
        let packed_mask = vec![true; packed.len()];
        let ctx = Context::new(0, 0, FLAG_SKIP_NAN);
        for (name, op) in OPS {
            for periods in [1, 2, 3, 5] {
                let full = plan(op, &ctx, &mask, periods);
                let dense = plan(op, &ctx, &packed_mask, periods);
                let mut k = 0;
                for i in 0..16 {
                    if !mask[i] {
                        assert_eq!(full[i], None);
                        continue;
                    }
                    match (full[i], dense[k]) {
                        (None, None) => {}
                        (Some(a), Some(b)) => {
                            assert_eq!(a.no_nan_count, b.no_nan_count, "{}", name);
                            let before: Vec<f64> =
                                (a.start..=a.end).filter(|j| mask[*j]).map(|j| x[j]).collect();
                            assert_eq!(before, packed[b.start..=b.end].to_vec(), "{}", name);
                        }
                        _ => panic!("{} has a value in one schedule only", name),
                    }
                    k += 1;
                }
            }
        }
        // running sums and products are for all remaining positions
        for op in [ta_sum as Op, ta_product as Op] {
            let full = plan(op, &ctx, &mask, 0);
            let dense = plan(op, &ctx, &packed_mask, 0);
            let mut k = 0;
            for i in 0..16 {
                if mask[i] {
                    assert_eq!(full[i].map(|w| w.no_nan_count), dense[k].map(|w| w.no_nan_count));
                    k += 1;
                }
            }
        }
    }
}

#[test]
fn groups_are_run_one_by_one() {
    for seed in 0..10 {
        let x = series(18, seed);
        let mask = present(&x);
        let other = present(&series(18, seed + 100));
        let keys: Vec<Option<i64>> = x.iter().map(|v| if v.is_nan() { None } else { Some((v * 4.0) as i64) }).collect();
        let keys2: Vec<Option<i64>> = series(18, seed + 50).iter().map(|v| if v.is_nan() { None } else { Some((v * 4.0) as i64) }).collect();
        for start in [0, 2, -2] {
            for flags in 0..4 {
                let ctx = Context::new(start, 3, flags);
                let one = Context::new(start, 1, flags);
                for periods in [0, 1, 3] {
                    for (name, op) in OPS {
                        let mut whole = vec![None; 18];
                        let outcome = op(&ctx, &mut whole, &mask, periods);
                        let mut parts = vec![];
                        let mut failed = false;
                        for g in 0..3 {
                            let mut part = vec![None; 6];
                            failed |= op(&one, &mut part, &mask[g * 6..g * 6 + 6], periods).is_err();
                            parts.extend(part);
                        }
                        assert_eq!(outcome.is_err(), failed, "{}", name);
                        if !failed {
                            assert_eq!(whole, parts, "{}", name);
                        }
                    }
                    let mut whole = vec![None; 18];
                    ta_sumif(&ctx, &mut whole, &mask, &other, periods).unwrap();
                    let mut places = vec![None; 18];
                    run_extremum(&ctx, &mut places, &keys, periods, true).unwrap();
                    let mut counts = vec![None; 18];
                    ta_count(&ctx, &mut counts, &mask, periods).unwrap();
                    let mut ranks = vec![None; 18];
                    ta_ts_rank(&ctx, &mut ranks, &keys, periods).unwrap();
                    let mut shifted = vec![None; 18];
                    ta_ref(&ctx, &mut shifted, &keys, periods).unwrap();
                    let mut crossed = vec![false; 18];
                    ta_cross(&ctx, &mut crossed, &keys, &keys2).unwrap();
                    let mut steps = vec![EmaCell::Missing; 18];
                    ema_impl(&ctx, &mut steps, &mask, periods).unwrap();
                    for g in 0..3 {
                        let at = g * 6..g * 6 + 6;
                        let mut part = vec![None; 6];
                        ta_sumif(&one, &mut part, &mask[at.clone()], &other[at.clone()], periods).unwrap();
                        assert_eq!(part, whole[at.clone()].to_vec());
                        let mut part = vec![None; 6];
                        run_extremum(&one, &mut part, &keys[at.clone()], periods, true).unwrap();
                        assert_eq!(part, places[at.clone()].to_vec());
                        let mut part = vec![None; 6];
                        ta_count(&one, &mut part, &mask[at.clone()], periods).unwrap();
                        assert_eq!(part, counts[at.clone()].to_vec());
                        let mut part = vec![None; 6];
                        ta_ts_rank(&one, &mut part, &keys[at.clone()], periods).unwrap();
                        assert_eq!(part, ranks[at.clone()].to_vec());
                        let mut part = vec![None; 6];
                        ta_ref(&one, &mut part, &keys[at.clone()], periods).unwrap();
                        assert_eq!(part, shifted[at.clone()].to_vec());
                        let mut part = vec![false; 6];
                        ta_cross(&one, &mut part, &keys[at.clone()], &keys2[at.clone()]).unwrap();
                        assert_eq!(part, crossed[at.clone()].to_vec());
                        let mut part = vec![EmaCell::Missing; 6];
                        ema_impl(&one, &mut part, &mask[at.clone()], periods).unwrap();
                        assert_eq!(part, steps[at.clone()].to_vec());
                    }
                }
            }
        }
    }
}

#[test]
fn the_window_moves_on_by_one_position() {
    let x = series(14, 5);
    let mask = present(&x);
    let periods = 4;
    let all: Vec<f64> = x.iter().map(|v| if v.is_nan() { 0.0 } else { *v }).collect();
    let dense = vec![true; 14];
    let r = plan(ta_sum, &Context::new(0, 0, 0), &dense, periods);
    let value = |i: usize| -> f64 { r[i].map(|w| all[w.start..=w.end].iter().sum()).unwrap() };
    for i in periods..14 {
        assert_eq!(r[i].unwrap().start, i + 1 - periods);
        assert_eq!(r[i].unwrap().prev_start, i - periods);
        assert_eq!(value(i) - value(i - 1), all[i] - all[i - periods]);
    }
    // with missing values the windows still move the same way
    let mut iter = SkipNanWindow::new(&mask, usize::MAX, 0);
    while let Some(w) = iter.next() {
        assert!(w.start <= w.end + 1 && w.prev_start <= w.start);
    }
}

#[test]
fn covariance_with_itself_is_the_variance() {
    for seed in 0..10 {
        let x = series(12, seed);
        let mask = present(&x);
        for ctx in contexts() {
            for periods in [1, 2, 4] {
                let mut cov = vec![None; 12];
                ta_cov(&ctx, &mut cov, &mask, &mask, periods).unwrap();
                let mut corr = vec![None; 12];
                ta_corr(&ctx, &mut corr, &mask, &mask, periods).unwrap();
                let var = plan(ta_var, &ctx, &mask, periods);
                assert_eq!(cov, var);
                assert_eq!(corr, var);
            }
        }
    }
}

#[test]
fn an_average_over_one_position_is_the_series() {
    let x = series(10, 9);
    let mask = present(&x);
    for ctx in contexts() {
        for op in [ta_ma as Op, ta_lwma as Op] {
            let r = plan(op, &ctx, &mask, 1);
            for i in 0..10 {
                let value = match r[i] {
                    Some(w) => {
                        assert_eq!((w.start, w.end, w.no_nan_count), (i, i, 1));
                        x[w.start]
                    }
                    None => f64::NAN,
                };
                assert!(value == x[i] || (value.is_nan() && x[i].is_nan()));
            }
        }
    }
}

#[test]
fn the_list_of_windows_is_what_the_scans_give() {
    for seed in 0..10 {
        let mask = present(&series(12, seed));
        for start in [0, 3] {
            let ctx = Context::new(start, 0, FLAG_SKIP_NAN);
            let mut steps = vec![None; 12];
            window_steps(&ctx, &mut steps, &mask, 3).unwrap();
            let mut iter = SkipNanWindow::new(&mask, 3, start as usize);
            for i in 0..12usize {
                assert_eq!(steps[i], if i < start as usize { None } else { iter.next() });
            }
            let ctx = Context::new(start, 0, 0);
            window_steps(&ctx, &mut steps, &mask, 3).unwrap();
            for i in 0..12usize {
                let lo = (i + 1).saturating_sub(3);
                let before = if i == start as usize { lo } else { i.saturating_sub(3) };
                let held = (lo..=i).filter(|k| mask[*k]).count();
                assert_eq!(steps[i], if i < start as usize { None } else { Some(Item::new(lo, before, i, held)) });
            }
            window_steps(&ctx, &mut steps, &mask, 0).unwrap();
            for i in start as usize..12 {
                let held = (start as usize..=i).filter(|k| mask[*k]).count();
                assert_eq!(steps[i], Some(Item::new(start as usize, start as usize, i, held)));
            }
        }
    }
    let mut short = vec![None; 2];
    assert!(matches!(
        window_steps(&Context::new(0, 0, 0), &mut short, &[true; 3], 1),
        Err(Error::LengthMismatch(2, 3))
    ));
    let mut steps = vec![None; 3];
    assert!(matches!(
        window_steps(&Context::new(0, 2, 0), &mut steps, &[true; 3], 1),
        Err(Error::LengthMismatch(3, 2))
    ));
}

/// Steps through the windows as a caller with running state does.
fn stepped(ctx: &Context, x: &[f64], periods: usize) -> Vec<f64> {
    let mask = present(x);
    let mut steps = vec![None; x.len()];
    window_steps(ctx, &mut steps, &mask, periods).unwrap();
    let due = plan(ta_sum, ctx, &mask, periods);
    let chunk = ctx.chunk_size(x.len());
    let mut r = vec![f64::NAN; x.len()];
    let mut sum = 0.0;
    for i in 0..x.len() {
        let base = (i / chunk) * chunk;
        let Some(w) = steps[i] else { continue };
        let first = i == base || steps[i - 1].is_none();
        if first {
            sum = (w.start..=w.end).filter(|k| mask[base + *k]).map(|k| x[base + k]).sum();
        } else {
            if mask[i] {
                sum += x[i];
            }
            for k in w.prev_start..w.start {
                if mask[base + k] {
                    sum -= x[base + k];
                }
            }
        }
        if due[i].is_some() {
            r[i] = sum;
        }
    }
    r
}

#[test]
fn stepping_through_the_windows_keeps_their_sum() {
    for seed in 0..20 {
        let x = series(18, seed);
        let mask = present(&x);
        for start in [0, 2, -1] {
            for flags in 0..4 {
                let ctx = Context::new(start, 3, flags);
                for periods in [0, 1, 2, 4, 9] {
                    let due = plan(ta_sum, &ctx, &mask, periods);
                    let running = stepped(&ctx, &x, periods);
                    for i in 0..18 {
                        let base = (i / 6) * 6;
                        match due[i] {
                            None => assert!(running[i].is_nan()),
                            Some(w) => {
                                let fresh: f64 = (w.start..=w.end)
                                    .filter(|k| mask[base + *k])
                                    .map(|k| x[base + k])
                                    .sum();
                                assert_eq!(running[i], fresh);
                            }
                        }
                    }
                }
            }
        }
    }
}
