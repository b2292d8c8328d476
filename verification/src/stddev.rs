//! The rolling standard deviation.

use vstd::prelude::*;
use crate::context::Context;
use crate::error::Error;
use crate::error::invalid_period;
use crate::rolling::grouped_cell;
use crate::rolling::Rule;
use crate::rolling::run_reducer;
use crate::segment::is_invalid_period;
use crate::segment::is_length_mismatch;
use crate::segment::is_ragged;
use crate::segment::segments_fit;
use crate::skip_nan_window::Item;
use crate::stats::var_rule;

verus! {

/// The schedule of the sample standard deviation of the last `periods`
/// samples.
///
/// `input[i]` says whether position `i` holds a number. Where `r[i]` comes
/// out as `Some(w)`, the value at `i` is the standard deviation of the
/// `w.no_nan_count` samples at `w.start..=w.end` of the segment that `i`
/// lies in; where it comes out as `None`, there is no value.
pub fn ta_stddev(ctx: &Context, r: &mut [Option<Item>], input: &[bool], periods: usize) -> (res: Result<(), Error>)
    ensures
        final(r)@.len() == old(r)@.len(),
        match res {
            Ok(()) => {
                &&& old(r)@.len() == input@.len()
                &&& periods != 0
                &&& segments_fit(*ctx, input@.len() as int)
                &&& forall|i: int|
                    0 <= i < input@.len() ==> #[trigger] final(r)@[i] == grouped_cell(
                        var_rule(),
                        *ctx,
                        input@,
                        periods as int,
                        i,
                    )
            },
            Err(e) => {
                &&& final(r)@ == old(r)@
                &&& if old(r)@.len() != input@.len() {
                    is_length_mismatch(e, old(r)@.len() as int, input@.len() as int)
                } else if periods == 0 {
                    is_invalid_period(e)
                } else {
                    !segments_fit(*ctx, input@.len() as int) && is_ragged(e, *ctx, input@.len() as int)
                }
            },
        },
{
    if r.len() != input.len() {
        return Err(Error::LengthMismatch(r.len(), input.len()));
    }
    if periods == 0 {
        return Err(invalid_period());
    }
    let rule = Rule { least: 2, partial: false, exact: false, every: false };
    run_reducer(&rule, ctx, r, input, periods)
}

} // verus!
