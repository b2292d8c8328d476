//! The moving average and the rolling product.

use vstd::prelude::*;
use crate::context::Context;
use crate::error::Error;
use crate::error::invalid_period;
use crate::rolling::copy_cell;
use crate::rolling::copy_grouped;
use crate::rolling::grouped_cell;
use crate::rolling::Rule;
use crate::rolling::run_reducer;
use crate::segment::is_invalid_period;
use crate::segment::is_length_mismatch;
use crate::segment::is_ragged;
use crate::segment::segments_fit;
use crate::skip_nan_window::Item;
use crate::sum::sum_rule;

verus! {

/// What the moving average writes at position `i`: with a window of one
/// position the sample itself, whatever the context says; else the window
/// that a sum would take.
pub open spec fn ma_cell(ctx: Context, v: Seq<bool>, periods: int, i: int) -> Option<Item> {
    if periods == 1 {
        copy_cell(ctx, v, i)
    } else {
        grouped_cell(sum_rule(), ctx, v, periods, i)
    }
}

/// The schedule of the mean of the last `periods` samples.
///
/// `input[i]` says whether position `i` holds a number. Where `r[i]` comes
/// out as `Some(w)`, the value at `i` is the sum of the samples at
/// `w.start..=w.end` of the segment that `i` lies in, divided by
/// `w.no_nan_count`; where it comes out as `None`, there is no value.
pub fn ta_ma(ctx: &Context, r: &mut [Option<Item>], input: &[bool], periods: usize) -> (res: Result<(), Error>)
    ensures
        final(r)@.len() == old(r)@.len(),
        match res {
            Ok(()) => {
                &&& old(r)@.len() == input@.len()
                &&& periods != 0
                &&& segments_fit(*ctx, input@.len() as int)
                &&& forall|i: int|
                    0 <= i < input@.len() ==> #[trigger] final(r)@[i] == ma_cell(*ctx, input@, periods as int, i)
            },
            Err(e) => {
                &&& final(r)@ == old(r)@
                &&& if old(r)@.len() != input@.len() {
                    is_length_mismatch(e, old(r)@.len() as int, input@.len() as int)
                } else if periods == 0 {
                    is_invalid_period(e)
                } else {
                    !segments_fit(*ctx, input@.len() as int) && is_ragged(e, *ctx, input@.len() as int)
                }
            },
        },
{
    if r.len() != input.len() {
        return Err(Error::LengthMismatch(r.len(), input.len()));
    }
    if periods == 0 {
        return Err(invalid_period());
    }
    if periods == 1 {
        return copy_grouped(ctx, r, input);
    }
    let rule = Rule { least: 1, partial: true, exact: false, every: false };
    run_reducer(&rule, ctx, r, input, periods)
}

/// The schedule of the product of the last `periods` samples; with
/// `periods` zero, of the running product from the first written position on.
///
/// `input[i]` says whether position `i` holds a number. Where `r[i]` comes
/// out as `Some(w)`, the value at `i` is the product of the samples at
/// `w.start..=w.end` of the segment that `i` lies in; where it comes out as
/// `None`, there is no value.
pub fn ta_product(ctx: &Context, r: &mut [Option<Item>], input: &[bool], periods: usize) -> (res: Result<(), Error>)
    ensures
        final(r)@.len() == old(r)@.len(),
        match res {
            Ok(()) => {
                &&& old(r)@.len() == input@.len()
                &&& segments_fit(*ctx, input@.len() as int)
                &&& forall|i: int|
                    0 <= i < input@.len() ==> #[trigger] final(r)@[i] == grouped_cell(
                        sum_rule(),
                        *ctx,
                        input@,
                        periods as int,
                        i,
                    )
            },
            Err(e) => {
                &&& final(r)@ == old(r)@
                &&& if old(r)@.len() != input@.len() {
                    is_length_mismatch(e, old(r)@.len() as int, input@.len() as int)
                } else {
                    !segments_fit(*ctx, input@.len() as int) && is_ragged(e, *ctx, input@.len() as int)
                }
            },
        },
{
    if r.len() != input.len() {
        return Err(Error::LengthMismatch(r.len(), input.len()));
    }
    let rule = Rule { least: 1, partial: true, exact: false, every: false };
    run_reducer(&rule, ctx, r, input, periods)
}

} // verus!
