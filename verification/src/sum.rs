//! Rolling sums.

use vstd::prelude::*;
use vstd::slice::slice_subrange;
use crate::context::Context;
use crate::error::Error;
use crate::rolling::grouped_cell;
use crate::rolling::rolling_cell;
use crate::rolling::Rule;
use crate::rolling::run_reducer;
use crate::rolling::running_item;
use crate::rolling::span_item;
use crate::rolling::span_start;
use crate::segment::check_shape;
use crate::segment::is_length_mismatch;
use crate::segment::is_ragged;
use crate::segment::lemma_segment_end;
use crate::segment::lemma_segment_place;
use crate::segment::segment_of;
use crate::segment::segments_fit;
use crate::skip_nan_window::count_true;
use crate::skip_nan_window::Item;
use crate::skip_nan_window::lemma_count_bounds;
use crate::skip_nan_window::lemma_count_first;

verus! {

/// A sum takes any window that holds a sample, full or not.
pub open spec fn sum_rule() -> Rule {
    Rule { least: 1, partial: true, exact: false, every: false }
}

/// The schedule of the sum over the last `periods` samples; with `periods`
/// zero, of the running sum from the first written position on.
///
/// `input[i]` says whether position `i` holds a number. Where `r[i]` comes
/// out as `Some(w)`, the value at `i` is the sum of the samples at
/// `w.start..=w.end` of the segment that `i` lies in; where it comes out as
/// `None`, there is no value.
pub fn ta_sum(ctx: &Context, r: &mut [Option<Item>], input: &[bool], periods: usize) -> (res: Result<
    (),
    Error,
>)
    ensures
        final(r)@.len() == old(r)@.len(),
        match res {
            Ok(()) => {
                &&& old(r)@.len() == input@.len()
                &&& segments_fit(*ctx, input@.len() as int)
                &&& forall|i: int|
                    0 <= i < input@.len() ==> #[trigger] final(r)@[i] == grouped_cell(
                        sum_rule(),
                        *ctx,
                        input@,
                        periods as int,
                        i,
                    )
            },
            Err(e) => {
                &&& final(r)@ == old(r)@
                &&& if old(r)@.len() != input@.len() {
                    is_length_mismatch(e, old(r)@.len() as int, input@.len() as int)
                } else {
                    !segments_fit(*ctx, input@.len() as int) && is_ragged(e, *ctx, input@.len() as int)
                }
            },
        },
{
    if r.len() != input.len() {
        return Err(Error::LengthMismatch(r.len(), input.len()));
    }
    let rule = Rule { least: 1, partial: true, exact: false, every: false };
    run_reducer(&rule, ctx, r, input, periods)
}

/// The positions that hold a sample which the condition selects.
pub open spec fn chosen(v: Seq<bool>, c: Seq<bool>) -> Seq<bool> {
    Seq::new(v.len(), |i: int| c[i] && v[i])
}

/// The positions that the condition selects and that hold no sample.
pub open spec fn spoiled(v: Seq<bool>, c: Seq<bool>) -> Seq<bool> {
    Seq::new(v.len(), |i: int| c[i] && !v[i])
}

/// What the conditional sum writes at position `i` of one segment, of which
/// `v` says where it holds samples and `c` which positions are selected.
///
/// Where missing values are skipped, the windows and the positions with a
/// value are those of the plain sum. Otherwise a window of positions has a
/// value unless it selects a position without a sample; a running sum has
/// one as soon as a selected sample was seen.
pub open spec fn sumif_cell(
    skip: bool,
    strict: bool,
    v: Seq<bool>,
    c: Seq<bool>,
    periods: int,
    s: int,
    i: int,
) -> Option<Item> {
    if i < s || i >= v.len() {
        None
    } else if periods == 0 {
        if count_true(chosen(v, c), s, i + 1) >= 1 {
            Some(running_item(v, s, i))
        } else {
            None
        }
    } else if skip {
        rolling_cell(sum_rule(), skip, strict, v, periods, s, i)
    } else {
        let item = span_item(v, periods, s, i);
        if count_true(spoiled(v, c), item.start as int, i + 1) == 0 && (strict ==> item.span()
            == periods) {
            Some(item)
        } else {
            None
        }
    }
}

/// What the conditional sum writes at position `i` of a whole series.
pub open spec fn sumif_grouped_cell(ctx: Context, v: Seq<bool>, c: Seq<bool>, periods: int, i: int) -> Option<Item> {
    let n = ctx.spec_chunk_size(v.len() as int);
    sumif_cell(
        ctx.spec_skip_nan(),
        ctx.spec_strictly_cycle(),
        segment_of(v, n, i),
        segment_of(c, n, i),
        periods,
        ctx.spec_start(n),
        i % n,
    )
}

/// Writes the conditional sum's schedule of one segment, where windows are
/// counted in positions or the sum is a running one.
fn sumif_segment(
    ctx: &Context,
    r: &mut [Option<Item>],
    valid: &[bool],
    condition: &[bool],
    base: usize,
    n: usize,
    periods: usize,
)
    requires
        base + n <= valid@.len(),
        valid@.len() == old(r)@.len(),
        valid@.len() == condition@.len(),
        periods == 0 || !ctx.spec_skip_nan(),
    ensures
        final(r)@.len() == old(r)@.len(),
        forall|k: int| 0 <= k < base || base + n <= k < old(r)@.len() ==> final(r)@[k] == old(r)@[k],
        forall|k: int|
            0 <= k < n ==> #[trigger] final(r)@[base + k] == sumif_cell(
                ctx.spec_skip_nan(),
                ctx.spec_strictly_cycle(),
                valid@.subrange(base as int, base + n),
                condition@.subrange(base as int, base + n),
                periods as int,
                ctx.spec_start(n as int),
                k,
            ),
{
    let len = valid.len();
    let seg = slice_subrange(valid, base, base + n);
    let cond = slice_subrange(condition, base, base + n);
    let s = ctx.start(n);
    let skip = ctx.skip_nan();
    let strict = ctx.strictly_cycle();
    let ghost v = seg@;
    let ghost c = cond@;
    let ghost before = r@;
    let mut k: usize = 0;
    while k < n
        invariant
            k <= n,
            base + n <= len,
            len == r@.len(),
            r@.len() == before.len(),
            forall|j: int| 0 <= j < base || base + n <= j < r@.len() ==> r@[j] == before[j],
            forall|j: int| 0 <= j < k ==> #[trigger] r@[base + j] == None::<Item>,
        decreases n - k,
    {
        r[base + k] = None;
        k += 1;
    }
    if n == 0 {
        return ;
    }
    if periods == 0 {
        let mut count: usize = 0;
        let mut hits: usize = 0;
        let mut i: usize = s;
        while i < n
            invariant
                s <= i <= n,
                v == seg@,
                c == cond@,
                v.len() == n,
                c.len() == n,
                base + n <= len,
                len == r@.len(),
                r@.len() == before.len(),
                count == count_true(v, s as int, i as int),
                hits == count_true(chosen(v, c), s as int, i as int),
                forall|j: int| 0 <= j < base || base + n <= j < r@.len() ==> r@[j] == before[j],
                forall|j: int| i <= j < n ==> #[trigger] r@[base + j] == None::<Item>,
                forall|j: int|
                    0 <= j < i ==> #[trigger] r@[base + j] == sumif_cell(
                        skip,
                        strict,
                        v,
                        c,
                        0,
                        s as int,
                        j,
                    ),
            decreases n - i,
        {
            proof {
                lemma_count_bounds(v, s as int, i as int);
                lemma_count_bounds(chosen(v, c), s as int, i as int);
            }
            if seg[i] {
                count += 1;
            }
            if cond[i] && seg[i] {
                hits += 1;
            }
            if hits >= 1 {
                r[base + i] = Some(Item::new(s, s, i, count));
            }
            i += 1;
        }
    } else {
        let mut lo: usize = if s + 1 > periods { s + 1 - periods } else { 0 };
        let mut count: usize = 0;
        let mut bad: usize = 0;
        let mut j: usize = lo;
        while j < s
            invariant
                lo <= j <= s < n,
                v == seg@,
                c == cond@,
                v.len() == n,
                c.len() == n,
                count == count_true(v, lo as int, j as int),
                bad == count_true(spoiled(v, c), lo as int, j as int),
            decreases s - j,
        {
            proof {
                lemma_count_bounds(v, lo as int, j as int);
                lemma_count_bounds(spoiled(v, c), lo as int, j as int);
            }
            if seg[j] {
                count += 1;
            }
            if cond[j] && !seg[j] {
                bad += 1;
            }
            j += 1;
        }
        let mut prev: usize = lo;
        let mut i: usize = s;
        while i < n
            invariant
                s <= i <= n,
                v == seg@,
                c == cond@,
                v.len() == n,
                c.len() == n,
                !skip,
                periods != 0,
                i < n ==> lo == span_start(periods as int, i as int),
                i < n ==> prev == if i <= s { span_start(periods as int, i as int) } else { span_start(periods as int, i - 1) },
                i < n ==> count == count_true(v, lo as int, i as int),
                i < n ==> bad == count_true(spoiled(v, c), lo as int, i as int),
                base + n <= len,
                len == r@.len(),
                r@.len() == before.len(),
                forall|j: int| 0 <= j < base || base + n <= j < r@.len() ==> r@[j] == before[j],
                forall|j: int| i <= j < n ==> #[trigger] r@[base + j] == None::<Item>,
                forall|j: int|
                    0 <= j < i ==> #[trigger] r@[base + j] == sumif_cell(
                        skip,
                        strict,
                        v,
                        c,
                        periods as int,
                        s as int,
                        j,
                    ),
            decreases n - i,
        {
            proof {
                lemma_count_bounds(v, lo as int, i as int);
                lemma_count_bounds(spoiled(v, c), lo as int, i as int);
            }
            if seg[i] {
                count += 1;
            }
            if cond[i] && !seg[i] {
                bad += 1;
            }
            let item = Item::new(lo, prev, i, count);
            let whole: bool = i + 1 - lo == periods;
            if bad == 0 && (!strict || whole) {
                r[base + i] = Some(item);
            }
            prev = lo;
            if i + 1 >= periods {
                proof {
                    lemma_count_first(v, lo as int, i + 1);
                    lemma_count_bounds(v, lo + 1, i + 1);
                    lemma_count_first(spoiled(v, c), lo as int, i + 1);
                    lemma_count_bounds(spoiled(v, c), lo + 1, i + 1);
                }
                if seg[lo] {
                    count -= 1;
                }
                if cond[lo] && !seg[lo] {
                    bad -= 1;
                }
                lo += 1;
            }
            i += 1;
        }
    }
}

/// The schedule of the sum, over the last `periods` samples, of those that
/// `condition` selects; with `periods` zero, of the running sum of the
/// selected samples from the first written position on.
///
/// `input[i]` says whether position `i` holds a number. Where `r[i]` comes
/// out as `Some(w)`, the value at `i` is the sum of the selected samples at
/// `w.start..=w.end` of the segment that `i` lies in; where it comes out as
/// `None`, there is no value.
pub fn ta_sumif(
    ctx: &Context,
    r: &mut [Option<Item>],
    input: &[bool],
    condition: &[bool],
    periods: usize,
) -> (res: Result<(), Error>)
    ensures
        final(r)@.len() == old(r)@.len(),
        match res {
            Ok(()) => {
                &&& old(r)@.len() == input@.len()
                &&& old(r)@.len() == condition@.len()
                &&& segments_fit(*ctx, input@.len() as int)
                &&& forall|i: int|
                    0 <= i < input@.len() ==> #[trigger] final(r)@[i] == sumif_grouped_cell(
                        *ctx,
                        input@,
                        condition@,
                        periods as int,
                        i,
                    )
            },
            Err(e) => {
                &&& final(r)@ == old(r)@
                &&& if old(r)@.len() != input@.len() || old(r)@.len() != condition@.len() {
                    is_length_mismatch(e, old(r)@.len() as int, input@.len() as int)
                } else {
                    !segments_fit(*ctx, input@.len() as int) && is_ragged(e, *ctx, input@.len() as int)
                }
            },
        },
{
    if r.len() != input.len() || r.len() != condition.len() {
        return Err(Error::LengthMismatch(r.len(), input.len()));
    }
    if periods != 0 && ctx.skip_nan() {
        let rule = Rule { least: 1, partial: true, exact: false, every: false };
        return run_reducer(&rule, ctx, r, input, periods);
    }
    let len = input.len();
    let chunk = match check_shape(ctx, len) {
        Err(e) => { return Err(e); },
        Ok(chunk) => chunk,
    };
    if chunk == 0 {
        return Ok(());
    }
    let ghost n = chunk as int;
    let ghost groups = ctx.spec_groups();
    let mut base: usize = 0;
    let ghost mut g: int = 0;
    while base < len
        invariant
            len == input@.len(),
            len == condition@.len(),
            r@.len() == len,
            n == chunk,
            n > 0,
            len == n * groups,
            groups == ctx.spec_groups(),
            n == ctx.spec_chunk_size(len as int),
            periods == 0 || !ctx.spec_skip_nan(),
            0 <= g <= groups,
            base == g * n,
            base <= len,
            forall|i: int|
                0 <= i < base ==> #[trigger] r@[i] == sumif_grouped_cell(
                    *ctx,
                    input@,
                    condition@,
                    periods as int,
                    i,
                ),
        decreases len - base,
    {
        proof {
            if g >= groups {
                vstd::arithmetic::mul::lemma_mul_inequality(groups, g, n);
                vstd::arithmetic::mul::lemma_mul_is_commutative(n, groups);
            }
            lemma_segment_end(n, groups, g);
        }
        let ghost prior = r@;
        sumif_segment(ctx, r, input, condition, base, chunk, periods);
        proof {
            assert forall|i: int| 0 <= i < base + chunk implies #[trigger] r@[i]
                == sumif_grouped_cell(*ctx, input@, condition@, periods as int, i) by {
                if i >= base {
                    let k = i - base;
                    lemma_segment_place(n, g, k);
                    assert(r@[base + k] == r@[i]);
                    assert(segment_of(input@, n, i) == input@.subrange(base as int, base + chunk));
                    assert(segment_of(condition@, n, i) == condition@.subrange(
                        base as int,
                        base + chunk,
                    ));
                } else {
                    assert(r@[i] == prior[i]);
                }
            }
            g = g + 1;
        }
        base += chunk;
    }
    Ok(())
}

} // verus!
