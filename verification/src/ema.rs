//! Weighted moving averages: by linear weights over a window, and by
//! exponential smoothing.

use vstd::prelude::*;
use vstd::slice::slice_subrange;
use crate::context::Context;
use crate::error::alpha_text;
use crate::error::Error;
use crate::error::invalid_alpha;
use crate::error::invalid_period;
use crate::rolling::copy_cell;
use crate::rolling::copy_grouped;
use crate::rolling::grouped_cell;
use crate::rolling::Rule;
use crate::rolling::run_reducer;
use crate::segment::check_shape;
use crate::segment::is_invalid_period;
use crate::segment::is_length_mismatch;
use crate::segment::is_ragged;
use crate::segment::lemma_segment_end;
use crate::segment::lemma_segment_place;
use crate::segment::segment_of;
use crate::segment::segments_fit;
use crate::series::prev_true;
use crate::skip_nan_window::Item;

verus! {

/// Linear weights are defined for a whole window only.
pub open spec fn lwma_rule() -> Rule {
    Rule { least: 1, partial: false, exact: true, every: false }
}

/// What the linearly weighted average writes at position `i`: with a window
/// of one position the sample itself, whatever the context says.
pub open spec fn lwma_cell(ctx: Context, v: Seq<bool>, periods: int, i: int) -> Option<Item> {
    if periods == 1 {
        copy_cell(ctx, v, i)
    } else {
        grouped_cell(lwma_rule(), ctx, v, periods, i)
    }
}

/// The schedule of the linearly weighted mean of the last `periods` samples.
///
/// `input[i]` says whether position `i` holds a number. Where `r[i]` comes
/// out as `Some(w)`, the value at `i` is the weighted mean of the samples at
/// `w.start..=w.end` of the segment that `i` lies in, the oldest with weight
/// 1 and the newest with weight `periods`; where it comes out as `None`,
/// there is no value.
pub fn ta_lwma(ctx: &Context, r: &mut [Option<Item>], input: &[bool], periods: usize) -> (res: Result<(), Error>)
    ensures
        final(r)@.len() == old(r)@.len(),
        match res {
            Ok(()) => {
                &&& old(r)@.len() == input@.len()
                &&& periods != 0
                &&& segments_fit(*ctx, input@.len() as int)
                &&& forall|i: int|
                    0 <= i < input@.len() ==> #[trigger] final(r)@[i] == lwma_cell(*ctx, input@, periods as int, i)
            },
            Err(e) => {
                &&& final(r)@ == old(r)@
                &&& if old(r)@.len() != input@.len() {
                    is_length_mismatch(e, old(r)@.len() as int, input@.len() as int)
                } else if periods == 0 {
                    is_invalid_period(e)
                } else {
                    !segments_fit(*ctx, input@.len() as int) && is_ragged(e, *ctx, input@.len() as int)
                }
            },
        },
{
    if r.len() != input.len() {
        return Err(Error::LengthMismatch(r.len(), input.len()));
    }
    if periods == 0 {
        return Err(invalid_period());
    }
    if periods == 1 {
        return copy_grouped(ctx, r, input);
    }
    let rule = Rule { least: 1, partial: false, exact: true, every: false };
    run_reducer(&rule, ctx, r, input, periods)
}

/// What exponential smoothing does at one position.
#[derive(Debug, Clone, Copy, PartialEq, Eq, Structural)]
pub enum EmaCell {
    /// No value is written.
    Missing,
    /// The sample is blended with the first sample of the segment.
    FromSeed,
    /// The sample is blended with what was written at the given place of
    /// the segment, be that a value or none.
    From(usize),
}

/// Whether `e` reports a smoothing factor outside `[0, 1]`.
pub open spec fn is_invalid_alpha(e: Error) -> bool {
    e matches Error::InvalidParameter(s) && s@ == alpha_text()
}

/// The last position before `i`, and not before `s`, that the recurrence
/// went through; -1 where there is none. Where missing values are skipped,
/// it goes through the positions that hold a sample; else through all.
pub open spec fn ema_prev(skip: bool, m: Seq<bool>, s: int, i: int) -> int {
    if skip {
        prev_true(m, s, i)
    } else if i > s {
        i - 1
    } else {
        -1
    }
}

/// What exponential smoothing does at position `i` of one segment, of
/// which `m` says where it holds samples. Where missing values are skipped,
/// a position without a sample is passed over. Under the strict flag the
/// first `periods` positions of the segment get no value, but the recurrence
/// goes through them.
pub open spec fn ema_cell(skip: bool, strict: bool, m: Seq<bool>, periods: int, s: int, i: int) -> EmaCell {
    if i < s || i >= m.len() {
        EmaCell::Missing
    } else if skip && !m[i] {
        EmaCell::Missing
    } else if strict && i < periods {
        EmaCell::Missing
    } else if ema_prev(skip, m, s, i) < 0 {
        EmaCell::FromSeed
    } else {
        EmaCell::From(ema_prev(skip, m, s, i) as usize)
    }
}

/// What exponential smoothing does at position `i` of a whole series.
pub open spec fn ema_grouped_cell(ctx: Context, m: Seq<bool>, periods: int, i: int) -> EmaCell {
    let c = ctx.spec_chunk_size(m.len() as int);
    ema_cell(
        ctx.spec_skip_nan(),
        ctx.spec_strictly_cycle(),
        segment_of(m, c, i),
        periods,
        ctx.spec_start(c),
        i % c,
    )
}

/// Writes the steps of the recurrence for one segment.
fn ema_segment(ctx: &Context, r: &mut [EmaCell], input: &[bool], base: usize, n: usize, periods: usize)
    requires
        base + n <= input@.len(),
        input@.len() == old(r)@.len(),
    ensures
        final(r)@.len() == old(r)@.len(),
        forall|k: int| 0 <= k < base || base + n <= k < old(r)@.len() ==> final(r)@[k] == old(r)@[k],
        forall|k: int| 0 <= k < n ==> #[trigger] final(r)@[base + k] == ema_cell(
                ctx.spec_skip_nan(),
                ctx.spec_strictly_cycle(),
                input@.subrange(base as int, base + n),
                periods as int,
                ctx.spec_start(n as int),
                k,
            ),
{
    let len = input.len();
    let seg = slice_subrange(input, base, base + n);
    let s = ctx.start(n);
    let skip = ctx.skip_nan();
    let strict = ctx.strictly_cycle();
    let ghost m = seg@;
    let ghost before = r@;
    let mut k: usize = 0;
    while k < n
        invariant
            k <= n,
            base + n <= len,
            len == r@.len(),
            r@.len() == before.len(),
            forall|j: int| 0 <= j < base || base + n <= j < r@.len() ==> r@[j] == before[j],
            forall|j: int| 0 <= j < k ==> #[trigger] r@[base + j] == EmaCell::Missing,
        decreases n - k,
    {
        r[base + k] = EmaCell::Missing;
        k += 1;
    }
    if n == 0 {
        return ;
    }
    let mut linked: bool = false;
    let mut prev: usize = 0;
    let mut i: usize = s;
    while i < n
        invariant
            s <= i <= n,
            m == seg@,
            m.len() == n,
            linked == (ema_prev(skip, m, s as int, i as int) >= 0),
            linked ==> prev == ema_prev(skip, m, s as int, i as int),
                base + n <= len,
                len == r@.len(),
                r@.len() == before.len(),
                forall|j: int| 0 <= j < base || base + n <= j < r@.len() ==> r@[j] == before[j],
            forall|j: int| i <= j < n ==> #[trigger] r@[base + j] == EmaCell::Missing,
            forall|j: int|
                0 <= j < i ==> #[trigger] r@[base + j] == ema_cell(
                    skip,
                    strict,
                    m,
                    periods as int,
                    s as int,
                    j,
                ),
        decreases n - i,
    {
        if !(skip && !seg[i]) {
            if !(strict && i < periods) {
                if linked {
                    r[base + i] = EmaCell::From(prev);
                } else {
                    r[base + i] = EmaCell::FromSeed;
                }
            }
            linked = true;
            prev = i;
        }
        i += 1;
    }
}

/// The steps of exponential smoothing, `r[i] = alpha * x[i] + (1 - alpha) *
/// previous`, for a smoothing factor that the caller holds: for each
/// position, whether a value is written and what the sample is blended with.
///
/// `input[i]` says whether position `i` holds a number. `periods` is the
/// number of leading positions that get no value under the strict flag.
pub fn ema_impl(ctx: &Context, r: &mut [EmaCell], input: &[bool], periods: usize) -> (res: Result<(), Error>)
    ensures
        final(r)@.len() == old(r)@.len(),
        match res {
            Ok(()) => {
                &&& old(r)@.len() == input@.len()
                &&& segments_fit(*ctx, input@.len() as int)
                &&& forall|i: int| 0 <= i < input@.len() ==> #[trigger] final(r)@[i] == ema_grouped_cell(*ctx, input@, periods as int, i)
            },
            Err(e) => {
                &&& final(r)@ == old(r)@
                &&& if old(r)@.len() != input@.len() {
                    is_length_mismatch(e, old(r)@.len() as int, input@.len() as int)
                } else {
                    !segments_fit(*ctx, input@.len() as int) && is_ragged(e, *ctx, input@.len() as int)
                }
            },
        },
{
    if r.len() != input.len() {
        return Err(Error::LengthMismatch(r.len(), input.len()));
    }
    let len = input.len();
    let chunk = match check_shape(ctx, len) {
        Err(e) => { return Err(e); },
        Ok(chunk) => chunk,
    };
    if chunk == 0 {
        return Ok(());
    }
    let ghost c = chunk as int;
    let ghost groups = ctx.spec_groups();
    let mut base: usize = 0;
    let ghost mut g: int = 0;
    while base < len
        invariant
            len == input@.len(),
            r@.len() == len,
            c == chunk,
            c > 0,
            len == c * groups,
            groups == ctx.spec_groups(),
            c == ctx.spec_chunk_size(len as int),
            0 <= g <= groups,
            base == g * c,
            base <= len,
            forall|i: int| 0 <= i < base ==> #[trigger] r@[i] == ema_grouped_cell(*ctx, input@, periods as int, i),
        decreases len - base,
    {
        proof {
            if g >= groups {
                vstd::arithmetic::mul::lemma_mul_inequality(groups, g, c);
                vstd::arithmetic::mul::lemma_mul_is_commutative(c, groups);
            }
            lemma_segment_end(c, groups, g);
        }
        let ghost prior = r@;
        ema_segment(ctx, r, input, base, chunk, periods);
        proof {
            assert forall|i: int| 0 <= i < base + chunk implies #[trigger] r@[i] == ema_grouped_cell(*ctx, input@, periods as int, i) by {
                if i >= base {
                    let k = i - base;
                    lemma_segment_place(c, g, k);
                    assert(r@[base + k] == r@[i]);
                    assert(segment_of(input@, c, i) == input@.subrange(base as int, base + chunk));
                } else {
                    assert(r@[i] == prior[i]);
                }
            }
            g = g + 1;
        }
        base += chunk;
    }
    Ok(())
}

/// The steps of the exponential moving average with the smoothing factor
/// `2 / (periods + 1)`. With `periods` zero that factor is 2, which is no
/// smoothing factor.
pub fn ta_ema(ctx: &Context, r: &mut [EmaCell], input: &[bool], periods: usize) -> (res: Result<(), Error>)
    ensures
        final(r)@.len() == old(r)@.len(),
        match res {
            Ok(()) => {
                &&& old(r)@.len() == input@.len()
                &&& !(periods == 0)
                &&& segments_fit(*ctx, input@.len() as int)
                &&& forall|i: int|
                    0 <= i < input@.len() ==> #[trigger] final(r)@[i] == ema_grouped_cell(
                        *ctx,
                        input@,
                        periods as int,
                        i,
                    )
            },
            Err(e) => {
                &&& final(r)@ == old(r)@
                &&& if old(r)@.len() != input@.len() {
                    is_length_mismatch(e, old(r)@.len() as int, input@.len() as int)
                } else if periods == 0 {
                    is_invalid_alpha(e)
                } else {
                    !segments_fit(*ctx, input@.len() as int) && is_ragged(e, *ctx, input@.len() as int)
                }
            },
        },
{
    if r.len() != input.len() {
        return Err(Error::LengthMismatch(r.len(), input.len()));
    }
    if periods == 0 {
        return Err(invalid_alpha());
    }
    ema_impl(ctx, r, input, periods)
}

/// The steps of the exponential moving average with the smoothing factor
/// `m / n`, which has to lie in `[0, 1]`. With both zero the factor is no
/// number, and neither is any value then.
pub fn ta_sma(ctx: &Context, r: &mut [EmaCell], input: &[bool], n: usize, m: usize) -> (res: Result<(), Error>)
    ensures
        final(r)@.len() == old(r)@.len(),
        match res {
            Ok(()) => {
                &&& old(r)@.len() == input@.len()
                &&& !(m > n)
                &&& segments_fit(*ctx, input@.len() as int)
                &&& forall|i: int|
                    0 <= i < input@.len() ==> #[trigger] final(r)@[i] == ema_grouped_cell(
                        *ctx,
                        input@,
                        0,
                        i,
                    )
            },
            Err(e) => {
                &&& final(r)@ == old(r)@
                &&& if old(r)@.len() != input@.len() {
                    is_length_mismatch(e, old(r)@.len() as int, input@.len() as int)
                } else if m > n {
                    is_invalid_alpha(e)
                } else {
                    !segments_fit(*ctx, input@.len() as int) && is_ragged(e, *ctx, input@.len() as int)
                }
            },
        },
{
    if r.len() != input.len() {
        return Err(Error::LengthMismatch(r.len(), input.len()));
    }
    if m > n {
        return Err(invalid_alpha());
    }
    ema_impl(ctx, r, input, 0)
}

/// The steps of the exponential moving average with a smoothing factor
/// that the caller holds and has found to lie in `[0, 1]`.
pub fn ta_dma(ctx: &Context, r: &mut [EmaCell], input: &[bool]) -> (res: Result<(), Error>)
    ensures
        final(r)@.len() == old(r)@.len(),
        match res {
            Ok(()) => {
                &&& old(r)@.len() == input@.len()
                &&& segments_fit(*ctx, input@.len() as int)
                &&& forall|i: int|
                    0 <= i < input@.len() ==> #[trigger] final(r)@[i] == ema_grouped_cell(
                        *ctx,
                        input@,
                        0,
                        i,
                    )
            },
            Err(e) => {
                &&& final(r)@ == old(r)@
                &&& if old(r)@.len() != input@.len() {
                    is_length_mismatch(e, old(r)@.len() as int, input@.len() as int)
                } else {
                    !segments_fit(*ctx, input@.len() as int) && is_ragged(e, *ctx, input@.len() as int)
                }
            },
        },
{
    ema_impl(ctx, r, input, 0)
}

} // verus!
