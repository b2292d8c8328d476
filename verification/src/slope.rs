//! Rolling linear regression of a series against its own positions.

use vstd::prelude::*;
use crate::context::Context;
use crate::error::Error;
use crate::error::invalid_period;
use crate::rolling::grouped_cell;
use crate::rolling::Rule;
use crate::rolling::run_reducer;
use crate::segment::is_invalid_period;
use crate::segment::is_length_mismatch;
use crate::segment::is_ragged;
use crate::segment::segments_fit;
use crate::skip_nan_window::Item;
use crate::stats::var_rule;

verus! {

/// The schedule that the regression operators share: a line is fitted to
/// two samples at least, and, where windows are counted in positions, to a
/// whole window. A window of one sample therefore never has a value.
///
/// `input[i]` says whether position `i` holds a number. Where `r[i]` comes
/// out as `Some(w)`, the line at `i` is fitted to the `w.no_nan_count`
/// samples at `w.start..=w.end` of the segment that `i` lies in, taken as the
/// points `0, 1, ..`; where it comes out as `None`, there is no value.
pub fn ta_linear_reg_core(ctx: &Context, r: &mut [Option<Item>], input: &[bool], periods: usize) -> (res: Result<(), Error>)
    ensures
        final(r)@.len() == old(r)@.len(),
        match res {
            Ok(()) => {
                &&& old(r)@.len() == input@.len()
                &&& periods != 0
                &&& segments_fit(*ctx, input@.len() as int)
                &&& forall|i: int|
                    0 <= i < input@.len() ==> #[trigger] final(r)@[i] == grouped_cell(
                        var_rule(),
                        *ctx,
                        input@,
                        periods as int,
                        i,
                    )
            },
            Err(e) => {
                &&& final(r)@ == old(r)@
                &&& if old(r)@.len() != input@.len() {
                    is_length_mismatch(e, old(r)@.len() as int, input@.len() as int)
                } else if periods == 0 {
                    is_invalid_period(e)
                } else {
                    !segments_fit(*ctx, input@.len() as int) && is_ragged(e, *ctx, input@.len() as int)
                }
            },
        },
{
    if r.len() != input.len() {
        return Err(Error::LengthMismatch(r.len(), input.len()));
    }
    if periods == 0 {
        return Err(invalid_period());
    }
    let rule = Rule { least: 2, partial: false, exact: false, every: false };
    run_reducer(&rule, ctx, r, input, periods)
}

/// The schedule of the slope of the fitted line.
pub fn ta_slope(ctx: &Context, r: &mut [Option<Item>], input: &[bool], periods: usize) -> (res: Result<(), Error>)
    ensures
        final(r)@.len() == old(r)@.len(),
        match res {
            Ok(()) => {
                &&& old(r)@.len() == input@.len()
                &&& periods != 0
                &&& segments_fit(*ctx, input@.len() as int)
                &&& forall|i: int|
                    0 <= i < input@.len() ==> #[trigger] final(r)@[i] == grouped_cell(
                        var_rule(),
                        *ctx,
                        input@,
                        periods as int,
                        i,
                    )
            },
            Err(e) => {
                &&& final(r)@ == old(r)@
                &&& if old(r)@.len() != input@.len() {
                    is_length_mismatch(e, old(r)@.len() as int, input@.len() as int)
                } else if periods == 0 {
                    is_invalid_period(e)
                } else {
                    !segments_fit(*ctx, input@.len() as int) && is_ragged(e, *ctx, input@.len() as int)
                }
            },
        },
{
    ta_linear_reg_core(ctx, r, input, periods)
}

/// The schedule of the intercept of the fitted line.
pub fn ta_intercept(ctx: &Context, r: &mut [Option<Item>], input: &[bool], periods: usize) -> (res: Result<(), Error>)
    ensures
        final(r)@.len() == old(r)@.len(),
        match res {
            Ok(()) => {
                &&& old(r)@.len() == input@.len()
                &&& periods != 0
                &&& segments_fit(*ctx, input@.len() as int)
                &&& forall|i: int|
                    0 <= i < input@.len() ==> #[trigger] final(r)@[i] == grouped_cell(
                        var_rule(),
                        *ctx,
                        input@,
                        periods as int,
                        i,
                    )
            },
            Err(e) => {
                &&& final(r)@ == old(r)@
                &&& if old(r)@.len() != input@.len() {
                    is_length_mismatch(e, old(r)@.len() as int, input@.len() as int)
                } else if periods == 0 {
                    is_invalid_period(e)
                } else {
                    !segments_fit(*ctx, input@.len() as int) && is_ragged(e, *ctx, input@.len() as int)
                }
            },
        },
{
    ta_linear_reg_core(ctx, r, input, periods)
}

/// The schedule of the correlation of a series with its own positions.
pub fn ta_ts_correlation(ctx: &Context, r: &mut [Option<Item>], input: &[bool], periods: usize) -> (res: Result<(), Error>)
    ensures
        final(r)@.len() == old(r)@.len(),
        match res {
            Ok(()) => {
                &&& old(r)@.len() == input@.len()
                &&& periods != 0
                &&& segments_fit(*ctx, input@.len() as int)
                &&& forall|i: int|
                    0 <= i < input@.len() ==> #[trigger] final(r)@[i] == grouped_cell(
                        var_rule(),
                        *ctx,
                        input@,
                        periods as int,
                        i,
                    )
            },
            Err(e) => {
                &&& final(r)@ == old(r)@
                &&& if old(r)@.len() != input@.len() {
                    is_length_mismatch(e, old(r)@.len() as int, input@.len() as int)
                } else if periods == 0 {
                    is_invalid_period(e)
                } else {
                    !segments_fit(*ctx, input@.len() as int) && is_ragged(e, *ctx, input@.len() as int)
                }
            },
        },
{
    ta_linear_reg_core(ctx, r, input, periods)
}

} // verus!
