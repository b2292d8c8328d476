//! Rolling variance, covariance and correlation.

use vstd::prelude::*;
use crate::context::Context;
use crate::error::Error;
use crate::error::invalid_period;
use crate::rolling::grouped_cell;
use crate::rolling::Rule;
use crate::rolling::run_reducer;
use crate::segment::is_invalid_period;
use crate::segment::is_length_mismatch;
use crate::segment::is_ragged;
use crate::segment::segments_fit;
use crate::skip_nan_window::Item;

verus! {

/// The formulas of this family take two samples at least, and, where
/// windows are counted in positions, a whole window.
pub open spec fn var_rule() -> Rule {
    Rule { least: 2, partial: false, exact: false, every: false }
}

/// The positions at which both of two series hold a sample.
pub open spec fn both(x: Seq<bool>, y: Seq<bool>) -> Seq<bool> {
    Seq::new(x.len(), |i: int| x[i] && y[i])
}

/// For each position, whether both series hold a sample there.
fn pairs(x: &[bool], y: &[bool]) -> (v: Vec<bool>)
    requires
        x@.len() == y@.len(),
    ensures
        v@ == both(x@, y@),
{
    let n = x.len();
    let mut v: Vec<bool> = Vec::new();
    let mut i: usize = 0;
    while i < n
        invariant
            n == x@.len(),
            n == y@.len(),
            i <= n,
            v@.len() == i,
            forall|j: int| 0 <= j < i ==> v@[j] == (x@[j] && y@[j]),
        decreases n - i,
    {
        v.push(x[i] && y[i]);
        i += 1;
    }
    assert(v@ =~= both(x@, y@));
    v
}

/// The schedule of the sample variance of the last `periods` samples.
///
/// `input[i]` says whether position `i` holds a number. Where `r[i]` comes
/// out as `Some(w)`, the value at `i` is the variance of the
/// `w.no_nan_count` samples at `w.start..=w.end` of the segment that `i`
/// lies in; where it comes out as `None`, there is no value.
pub fn ta_var(ctx: &Context, r: &mut [Option<Item>], input: &[bool], periods: usize) -> (res: Result<(), Error>)
    ensures
        final(r)@.len() == old(r)@.len(),
        match res {
            Ok(()) => {
                &&& old(r)@.len() == input@.len()
                &&& periods != 0
                &&& segments_fit(*ctx, input@.len() as int)
                &&& forall|i: int|
                    0 <= i < input@.len() ==> #[trigger] final(r)@[i] == grouped_cell(
                        var_rule(),
                        *ctx,
                        input@,
                        periods as int,
                        i,
                    )
            },
            Err(e) => {
                &&& final(r)@ == old(r)@
                &&& if old(r)@.len() != input@.len() {
                    is_length_mismatch(e, old(r)@.len() as int, input@.len() as int)
                } else if periods == 0 {
                    is_invalid_period(e)
                } else {
                    !segments_fit(*ctx, input@.len() as int) && is_ragged(e, *ctx, input@.len() as int)
                }
            },
        },
{
    if r.len() != input.len() {
        return Err(Error::LengthMismatch(r.len(), input.len()));
    }
    if periods == 0 {
        return Err(invalid_period());
    }
    let rule = Rule { least: 2, partial: false, exact: false, every: false };
    run_reducer(&rule, ctx, r, input, periods)
}

/// The schedule of the sample covariance of two series over the last
/// `periods` positions at which both hold a sample.
///
/// `x[i]` and `y[i]` say whether position `i` of either series holds a
/// number. Where `r[i]` comes out as `Some(w)`, the value at `i` is the
/// covariance of the `w.no_nan_count` pairs at `w.start..=w.end` of the
/// segment that `i` lies in; where it comes out as `None`, there is no value.
pub fn ta_cov(ctx: &Context, r: &mut [Option<Item>], x: &[bool], y: &[bool], periods: usize) -> (res: Result<(), Error>)
    ensures
        final(r)@.len() == old(r)@.len(),
        match res {
            Ok(()) => {
                &&& old(r)@.len() == x@.len()
                &&& x@.len() == y@.len()
                &&& periods != 0
                &&& segments_fit(*ctx, x@.len() as int)
                &&& forall|i: int|
                    0 <= i < x@.len() ==> #[trigger] final(r)@[i] == grouped_cell(
                        var_rule(),
                        *ctx,
                        both(x@, y@),
                        periods as int,
                        i,
                    )
            },
            Err(e) => {
                &&& final(r)@ == old(r)@
                &&& if old(r)@.len() != x@.len() || x@.len() != y@.len() {
                    is_length_mismatch(e, old(r)@.len() as int, x@.len() as int)
                } else if periods == 0 {
                    is_invalid_period(e)
                } else {
                    !segments_fit(*ctx, x@.len() as int) && is_ragged(e, *ctx, x@.len() as int)
                }
            },
        },
{
    if r.len() != x.len() || x.len() != y.len() {
        return Err(Error::LengthMismatch(r.len(), x.len()));
    }
    if periods == 0 {
        return Err(invalid_period());
    }
    let joint = pairs(x, y);
    let rule = Rule { least: 2, partial: false, exact: false, every: false };
    run_reducer(&rule, ctx, r, joint.as_slice(), periods)
}

/// The schedule of the correlation of two series over the last `periods`
/// positions at which both hold a sample.
///
/// `x[i]` and `y[i]` say whether position `i` of either series holds a
/// number. Where `r[i]` comes out as `Some(w)`, the value at `i` is the
/// correlation of the `w.no_nan_count` pairs at `w.start..=w.end` of the
/// segment that `i` lies in, if their spread allows one; where it comes out
/// as `None`, there is no value.
pub fn ta_corr(ctx: &Context, r: &mut [Option<Item>], x: &[bool], y: &[bool], periods: usize) -> (res: Result<(), Error>)
    ensures
        final(r)@.len() == old(r)@.len(),
        match res {
            Ok(()) => {
                &&& old(r)@.len() == x@.len()
                &&& x@.len() == y@.len()
                &&& periods != 0
                &&& segments_fit(*ctx, x@.len() as int)
                &&& forall|i: int|
                    0 <= i < x@.len() ==> #[trigger] final(r)@[i] == grouped_cell(
                        var_rule(),
                        *ctx,
                        both(x@, y@),
                        periods as int,
                        i,
                    )
            },
            Err(e) => {
                &&& final(r)@ == old(r)@
                &&& if old(r)@.len() != x@.len() || x@.len() != y@.len() {
                    is_length_mismatch(e, old(r)@.len() as int, x@.len() as int)
                } else if periods == 0 {
                    is_invalid_period(e)
                } else {
                    !segments_fit(*ctx, x@.len() as int) && is_ragged(e, *ctx, x@.len() as int)
                }
            },
        },
{
    if r.len() != x.len() || x.len() != y.len() {
        return Err(Error::LengthMismatch(r.len(), x.len()));
    }
    if periods == 0 {
        return Err(invalid_period());
    }
    let joint = pairs(x, y);
    let rule = Rule { least: 2, partial: false, exact: false, every: false };
    run_reducer(&rule, ctx, r, joint.as_slice(), periods)
}

} // verus!
