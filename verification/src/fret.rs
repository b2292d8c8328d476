//! The forward return: what a position entered some bars ahead yields.
//!
//! A price series is read here as a sequence of keys, one per position:
//! `Some(k)` where the position holds a number, with `k` an integer that is
//! 0 for the number zero and equal for equal numbers only, and `None` where
//! the value is missing.

use vstd::prelude::*;
use vstd::slice::slice_subrange;
use crate::context::Context;
use crate::error::Error;
use crate::segment::check_shape;
use crate::segment::is_length_mismatch;
use crate::segment::is_ragged;
use crate::segment::lemma_segment_end;
use crate::segment::lemma_segment_place;
use crate::segment::segment_of;
use crate::segment::segments_fit;

verus! {

/// The two bars that a forward return is taken between, as places within
/// a segment: the return is the close of `exit` less the open of `entry`,
/// divided by the open of `entry`.
#[derive(Debug, Clone, Copy, PartialEq, Eq, Structural)]
pub struct Trade {
    pub entry: usize,
    pub exit: usize,
}

/// Whether the bar at `j` did not move: open, high, low and close are the
/// same number.
pub open spec fn is_flat(
    open: Seq<Option<i64>>,
    high: Seq<Option<i64>>,
    low: Seq<Option<i64>>,
    close: Seq<Option<i64>>,
    j: int,
) -> bool {
    open[j].is_some() && high[j] == open[j] && low[j] == open[j] && close[j] == open[j]
}

/// What the forward return writes at position `i` of one segment: the bar
/// entered `delay` positions ahead and the bar left `periods` bars later,
/// or nothing where either lies beyond the segment, the open of the entry is
/// missing or zero, the close of the exit is missing, or the entry bar did
/// not move.
pub open spec fn fret_cell(
    open: Seq<Option<i64>>,
    high: Seq<Option<i64>>,
    low: Seq<Option<i64>>,
    close: Seq<Option<i64>>,
    delay: int,
    periods: int,
    s: int,
    i: int,
) -> Option<Trade> {
    let entry = i + delay;
    let exit = i + delay + periods - 1;
    if i < s || periods == 0 || entry >= open.len() || exit >= open.len() {
        None
    } else if open[entry].is_none() || open[entry] == Some(0i64) || close[exit].is_none() {
        None
    } else if is_flat(open, high, low, close, entry) {
        None
    } else {
        Some(Trade { entry: entry as usize, exit: exit as usize })
    }
}

/// What the forward return writes at position `i` of a whole series.
pub open spec fn fret_grouped_cell(
    ctx: Context,
    open: Seq<Option<i64>>,
    high: Seq<Option<i64>>,
    low: Seq<Option<i64>>,
    close: Seq<Option<i64>>,
    delay: int,
    periods: int,
    i: int,
) -> Option<Trade> {
    let c = ctx.spec_chunk_size(open.len() as int);
    fret_cell(
        segment_of(open, c, i),
        segment_of(high, c, i),
        segment_of(low, c, i),
        segment_of(close, c, i),
        delay,
        periods,
        ctx.spec_start(c),
        i % c,
    )
}

/// Writes the forward returns of one segment.
fn fret_segment(ctx: &Context, r: &mut [Option<Trade>], open: &[Option<i64>], high: &[Option<i64>], low: &[Option<i64>], close: &[Option<i64>], base: usize, n: usize, delay: usize, periods: usize)
    requires
        base + n <= open@.len(),
        open@.len() == old(r)@.len(),
        open@.len() == high@.len(),
        open@.len() == low@.len(),
        open@.len() == close@.len(),
    ensures
        final(r)@.len() == old(r)@.len(),
        forall|k: int| 0 <= k < base || base + n <= k < old(r)@.len() ==> final(r)@[k] == old(r)@[k],
        forall|k: int| 0 <= k < n ==> #[trigger] final(r)@[base + k] == fret_cell(
                open@.subrange(base as int, base + n),
                high@.subrange(base as int, base + n),
                low@.subrange(base as int, base + n),
                close@.subrange(base as int, base + n),
                delay as int,
                periods as int,
                ctx.spec_start(n as int),
                k,
            ),
{
    let len = open.len();
    let o = slice_subrange(open, base, base + n);
    let h = slice_subrange(high, base, base + n);
    let l = slice_subrange(low, base, base + n);
    let c = slice_subrange(close, base, base + n);
    let s = ctx.start(n);
    let ghost before = r@;
    let mut k: usize = 0;
    while k < n
        invariant
            k <= n,
            base + n <= len,
            len == r@.len(),
            r@.len() == before.len(),
            forall|j: int| 0 <= j < base || base + n <= j < r@.len() ==> r@[j] == before[j],
            forall|j: int| 0 <= j < k ==> #[trigger] r@[base + j] == None::<Trade>,
        decreases n - k,
    {
        r[base + k] = None;
        k += 1;
    }
    if n == 0 {
        return ;
    }
    if periods == 0 || delay >= n || periods > n - delay {
        return ;
    }
    let limit: usize = n - delay - periods + 1;
    let mut i: usize = s;
    while i < limit
        invariant
            s <= i,
            i <= limit || limit <= s,
            limit == n - delay - periods + 1,
            0 < periods,
            delay < n,
            periods <= n - delay,
            o@.len() == n,
            h@.len() == n,
            l@.len() == n,
            c@.len() == n,
                base + n <= len,
                len == r@.len(),
                r@.len() == before.len(),
                forall|j: int| 0 <= j < base || base + n <= j < r@.len() ==> r@[j] == before[j],
            forall|j: int| i <= j < n ==> #[trigger] r@[base + j] == None::<Trade>,
            forall|j: int|
                0 <= j < i ==> #[trigger] r@[base + j] == fret_cell(
                    o@,
                    h@,
                    l@,
                    c@,
                    delay as int,
                    periods as int,
                    s as int,
                    j,
                ),
        decreases limit - i,
    {
        let entry: usize = i + delay;
        let exit: usize = entry + (periods - 1);
        match (o[entry], c[exit]) {
            (Some(price), Some(_)) => {
                let flat: bool = h[entry] == Some(price) && l[entry] == Some(price) && c[entry] == Some(price);
                if price != 0 && !flat {
                    r[base + i] = Some(Trade { entry, exit });
                }
            },
            _ => {},
        }
        i += 1;
    }
}

/// For each position, the two bars between which the forward return is
/// taken: the bar `delay` positions ahead, and the bar `periods - 1`
/// positions after that one; both as places within the segment of the
/// position. `None` is written where no return is defined.
pub fn ta_fret(ctx: &Context, r: &mut [Option<Trade>], open: &[Option<i64>], high: &[Option<i64>], low: &[Option<i64>], close: &[Option<i64>], delay: usize, periods: usize) -> (res: Result<(), Error>)
    ensures
        final(r)@.len() == old(r)@.len(),
        match res {
            Ok(()) => {
                &&& old(r)@.len() == open@.len()
                &&& old(r)@.len() == high@.len()
                &&& old(r)@.len() == low@.len()
                &&& old(r)@.len() == close@.len()
                &&& segments_fit(*ctx, open@.len() as int)
                &&& forall|i: int| 0 <= i < open@.len() ==> #[trigger] final(r)@[i] == fret_grouped_cell(
                    *ctx,
                    open@,
                    high@,
                    low@,
                    close@,
                    delay as int,
                    periods as int,
                    i,
                )
            },
            Err(e) => {
                &&& final(r)@ == old(r)@
                &&& if old(r)@.len() != open@.len() || old(r)@.len() != high@.len() || old(r)@.len() != low@.len() || old(r)@.len() != close@.len() {
                    is_length_mismatch(e, old(r)@.len() as int, open@.len() as int)
                } else {
                    !segments_fit(*ctx, open@.len() as int) && is_ragged(e, *ctx, open@.len() as int)
                }
            },
        },
{
    if r.len() != open.len() || r.len() != high.len() || r.len() != low.len() || r.len() != close.len() {
        return Err(Error::LengthMismatch(r.len(), open.len()));
    }
    let len = open.len();
    let chunk = match check_shape(ctx, len) {
        Err(e) => { return Err(e); },
        Ok(chunk) => chunk,
    };
    if chunk == 0 {
        return Ok(());
    }
    let ghost c = chunk as int;
    let ghost groups = ctx.spec_groups();
    let mut base: usize = 0;
    let ghost mut g: int = 0;
    while base < len
        invariant
            len == open@.len(),
            len == high@.len(),
            len == low@.len(),
            len == close@.len(),
            r@.len() == len,
            c == chunk,
            c > 0,
            len == c * groups,
            groups == ctx.spec_groups(),
            c == ctx.spec_chunk_size(len as int),
            0 <= g <= groups,
            base == g * c,
            base <= len,
            forall|i: int| 0 <= i < base ==> #[trigger] r@[i] == fret_grouped_cell(
                    *ctx,
                    open@,
                    high@,
                    low@,
                    close@,
                    delay as int,
                    periods as int,
                    i,
                ),
        decreases len - base,
    {
        proof {
            if g >= groups {
                vstd::arithmetic::mul::lemma_mul_inequality(groups, g, c);
                vstd::arithmetic::mul::lemma_mul_is_commutative(c, groups);
            }
            lemma_segment_end(c, groups, g);
        }
        let ghost prior = r@;
        fret_segment(ctx, r, open, high, low, close, base, chunk, delay, periods);
        proof {
            assert forall|i: int| 0 <= i < base + chunk implies #[trigger] r@[i] == fret_grouped_cell(
                    *ctx,
                    open@,
                    high@,
                    low@,
                    close@,
                    delay as int,
                    periods as int,
                    i,
                ) by {
                if i >= base {
                    let k = i - base;
                    lemma_segment_place(c, g, k);
                    assert(r@[base + k] == r@[i]);
                    assert(segment_of(open@, c, i) == open@.subrange(base as int, base + chunk));
                    assert(segment_of(high@, c, i) == high@.subrange(base as int, base + chunk));
                    assert(segment_of(low@, c, i) == low@.subrange(base as int, base + chunk));
                    assert(segment_of(close@, c, i) == close@.subrange(base as int, base + chunk));
                } else {
                    assert(r@[i] == prior[i]);
                }
            }
            g = g + 1;
        }
        base += chunk;
    }
    Ok(())
}

} // verus!
