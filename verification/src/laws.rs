//! What holds of the operators whatever the input: statements that relate
//! the schedules of several calls, or that every schedule obeys.

use vstd::prelude::*;
use crate::context::Context;
use crate::cross::crossing_grouped_cell;
use crate::cross::lands;
use crate::cross::leads;
use crate::cross::lemma_run_bounds;
use crate::cross::long_cell;
use crate::cross::run_before;
use crate::cross::run_origin;
use crate::ema::ema_grouped_cell;
use crate::ema::EmaCell;
use crate::ema::lwma_cell;
use crate::extremum::extreme_at;
use crate::extremum::extremum_grouped_cell;
use crate::extremum::extremum_window;
use crate::extremum::is_extreme;
use crate::extremum::lemma_extreme_exists;
use crate::fret::fret_grouped_cell;
use crate::ma::ma_cell;
use crate::rank::ts_rank_grouped_cell;
use crate::rolling::copy_cell;
use crate::rolling::grouped_cell;
use crate::rolling::rolling_cell;
use crate::rolling::Rule;
use crate::rolling::running_item;
use crate::rolling::span_item;
use crate::rolling::span_start;
use crate::rolling::step_rule;
use crate::segment::lemma_segment_end;
use crate::segment::lemma_segment_place;
use crate::segment::present;
use crate::segment::segment_of;
use crate::segment::segments_fit;
use crate::series::barslast_cell;
use crate::series::barslast_grouped_cell;
use crate::series::barssince_grouped_cell;
use crate::series::count_grouped_cell;
use crate::series::prev_true;
use crate::series::ref_grouped_cell;
use crate::skip_nan_window::count_true;
use crate::skip_nan_window::is_skip_start;
use crate::skip_nan_window::Item;
use crate::skip_nan_window::lemma_count_bounds;
use crate::skip_nan_window::lemma_count_first;
use crate::skip_nan_window::lemma_count_full;
use crate::skip_nan_window::lemma_count_split;
use crate::skip_nan_window::lemma_skip_start_exists;
use crate::skip_nan_window::lemma_skip_start_monotone;
use crate::skip_nan_window::lemma_skip_start_unique;
use crate::skip_nan_window::skip_count;
use crate::skip_nan_window::skip_item;
use crate::skip_nan_window::skip_start;
use crate::stats::both;
use crate::stats::var_rule;
use crate::sum::sumif_grouped_cell;

verus! {

/// The context of a call on one segment by itself: the same start and
/// flags, and one group.
pub open spec fn alone(ctx: Context) -> Context {
    Context { _start: ctx._start, _groups: 1, _flags: ctx._flags }
}

/// Where place `k` of segment `g` lies, in the series and in the segment
/// taken by itself.
pub proof fn lemma_alone<T>(ctx: Context, v: Seq<T>, g: int, k: int)
    requires
        segments_fit(ctx, v.len() as int),
        0 <= g < ctx.spec_groups(),
        0 <= k < ctx.spec_chunk_size(v.len() as int),
    ensures
        ({
            let c = ctx.spec_chunk_size(v.len() as int);
            let seg = v.subrange(g * c, g * c + c);
            &&& 0 <= g * c + k < v.len()
            &&& g * c + c <= v.len()
            &&& segment_of(v, c, g * c + k) == seg
            &&& (g * c + k) % c == k
            &&& (g * c + k) / c == g
            &&& alone(ctx).spec_chunk_size(seg.len() as int) == c
            &&& alone(ctx).spec_start(c) == ctx.spec_start(c)
            &&& alone(ctx).spec_skip_nan() == ctx.spec_skip_nan()
            &&& alone(ctx).spec_strictly_cycle() == ctx.spec_strictly_cycle()
            &&& segment_of(seg, c, k) == seg
            &&& k % c == k
            &&& segments_fit(alone(ctx), seg.len() as int)
        }),
{
    let c = ctx.spec_chunk_size(v.len() as int);
    let seg = v.subrange(g * c, g * c + c);
    lemma_segment_end(c, ctx.spec_groups(), g);
    lemma_segment_place(c, g, k);
    lemma_segment_place(c, 0, k);
    assert(0 <= g * c) by (nonlinear_arith)
        requires
            0 <= g,
            0 <= c,
    ;
    assert(0 * c == 0) by (nonlinear_arith);
    assert(seg.len() == c);
    assert(c / 1 == c);
    assert(c * 1 == c) by (nonlinear_arith);
    assert(seg.subrange(0, c) =~= seg);
}

/// A call on a series of several groups writes, for each group, what a
/// call on that group by itself writes: here for the reducers that share the
/// rolling schedule.
pub proof fn law_groups_are_independent(rule: Rule, ctx: Context, v: Seq<bool>, periods: int, g: int, k: int)
    requires
        segments_fit(ctx, v.len() as int),
        0 <= g < ctx.spec_groups(),
        0 <= k < ctx.spec_chunk_size(v.len() as int),
    ensures
        ({
            let c = ctx.spec_chunk_size(v.len() as int);
            grouped_cell(rule, ctx, v, periods, g * c + k) == grouped_cell(
                rule,
                alone(ctx),
                v.subrange(g * c, g * c + c),
                periods,
                k,
            )
        }),
{
    lemma_alone(ctx, v, g, k);
}

/// The same for the moving averages, whose window of one position is a
/// case of its own.
pub proof fn law_groups_are_independent_ma(ctx: Context, v: Seq<bool>, periods: int, g: int, k: int)
    requires
        segments_fit(ctx, v.len() as int),
        0 <= g < ctx.spec_groups(),
        0 <= k < ctx.spec_chunk_size(v.len() as int),
    ensures
        ({
            let c = ctx.spec_chunk_size(v.len() as int);
            &&& ma_cell(ctx, v, periods, g * c + k) == ma_cell(
                alone(ctx),
                v.subrange(g * c, g * c + c),
                periods,
                k,
            )
            &&& lwma_cell(ctx, v, periods, g * c + k) == lwma_cell(
                alone(ctx),
                v.subrange(g * c, g * c + c),
                periods,
                k,
            )
        }),
{
    lemma_alone(ctx, v, g, k);
}

/// The same for the conditional sum.
pub proof fn law_groups_are_independent_sumif(
    ctx: Context,
    v: Seq<bool>,
    cond: Seq<bool>,
    periods: int,
    g: int,
    k: int,
)
    requires
        v.len() == cond.len(),
        segments_fit(ctx, v.len() as int),
        0 <= g < ctx.spec_groups(),
        0 <= k < ctx.spec_chunk_size(v.len() as int),
    ensures
        ({
            let c = ctx.spec_chunk_size(v.len() as int);
            sumif_grouped_cell(ctx, v, cond, periods, g * c + k) == sumif_grouped_cell(
                alone(ctx),
                v.subrange(g * c, g * c + c),
                cond.subrange(g * c, g * c + c),
                periods,
                k,
            )
        }),
{
    lemma_alone(ctx, v, g, k);
    lemma_alone(ctx, cond, g, k);
}

/// The same for the extremes, for the crossings, and for the ranks in time.
pub proof fn law_groups_are_independent_keys(
    ctx: Context,
    a: Seq<Option<i64>>,
    b: Seq<Option<i64>>,
    periods: int,
    highest: bool,
    long: bool,
    rising: bool,
    g: int,
    k: int,
)
    requires
        a.len() == b.len(),
        segments_fit(ctx, a.len() as int),
        0 <= g < ctx.spec_groups(),
        0 <= k < ctx.spec_chunk_size(a.len() as int),
    ensures
        ({
            let c = ctx.spec_chunk_size(a.len() as int);
            let x = a.subrange(g * c, g * c + c);
            let y = b.subrange(g * c, g * c + c);
            &&& extremum_grouped_cell(highest, ctx, a, periods, g * c + k) == extremum_grouped_cell(
                highest,
                alone(ctx),
                x,
                periods,
                k,
            )
            &&& crossing_grouped_cell(long, rising, ctx, a, b, periods, g * c + k)
                == crossing_grouped_cell(long, rising, alone(ctx), x, y, periods, k)
            &&& ts_rank_grouped_cell(ctx, a, periods, g * c + k) == ts_rank_grouped_cell(
                alone(ctx),
                x,
                periods,
                k,
            )
        }),
{
    lemma_alone(ctx, a, g, k);
    lemma_alone(ctx, b, g, k);
}

/// The same for the shift, the distances to a condition, the counts of a
/// condition, and the steps of exponential smoothing.
pub proof fn law_groups_are_independent_series<T>(
    ctx: Context,
    v: Seq<Option<T>>,
    cond: Seq<bool>,
    periods: int,
    g: int,
    k: int,
)
    requires
        v.len() == cond.len(),
        segments_fit(ctx, v.len() as int),
        0 <= g < ctx.spec_groups(),
        0 <= k < ctx.spec_chunk_size(v.len() as int),
    ensures
        ({
            let c = ctx.spec_chunk_size(v.len() as int);
            let x = v.subrange(g * c, g * c + c);
            let y = cond.subrange(g * c, g * c + c);
            &&& ref_grouped_cell(ctx, v, periods, g * c + k) == ref_grouped_cell(alone(ctx), x, periods, k)
            &&& barslast_grouped_cell(ctx, cond, g * c + k) == barslast_grouped_cell(alone(ctx), y, k)
            &&& barssince_grouped_cell(ctx, cond, g * c + k) == barssince_grouped_cell(alone(ctx), y, k)
            &&& count_grouped_cell(ctx, cond, periods, g * c + k) == count_grouped_cell(
                alone(ctx),
                y,
                periods,
                k,
            )
            &&& ema_grouped_cell(ctx, cond, periods, g * c + k) == ema_grouped_cell(
                alone(ctx),
                y,
                periods,
                k,
            )
        }),
{
    lemma_alone(ctx, v, g, k);
    lemma_alone(ctx, cond, g, k);
}

/// The same for the forward return.
pub proof fn law_groups_are_independent_fret(
    ctx: Context,
    open: Seq<Option<i64>>,
    high: Seq<Option<i64>>,
    low: Seq<Option<i64>>,
    close: Seq<Option<i64>>,
    delay: int,
    periods: int,
    g: int,
    k: int,
)
    requires
        open.len() == high.len(),
        open.len() == low.len(),
        open.len() == close.len(),
        segments_fit(ctx, open.len() as int),
        0 <= g < ctx.spec_groups(),
        0 <= k < ctx.spec_chunk_size(open.len() as int),
    ensures
        ({
            let c = ctx.spec_chunk_size(open.len() as int);
            fret_grouped_cell(ctx, open, high, low, close, delay, periods, g * c + k)
                == fret_grouped_cell(
                alone(ctx),
                open.subrange(g * c, g * c + c),
                high.subrange(g * c, g * c + c),
                low.subrange(g * c, g * c + c),
                close.subrange(g * c, g * c + c),
                delay,
                periods,
                k,
            )
        }),
{
    lemma_alone(ctx, open, g, k);
    lemma_alone(ctx, high, g, k);
    lemma_alone(ctx, low, g, k);
    lemma_alone(ctx, close, g, k);
}

/// No operator that runs segment by segment writes a value before the first
/// written position of a segment. The averages and the rank in time are left
/// out for a window of one position, where they write every position.
pub proof fn law_nothing_before_start<T>(
    rule: Rule,
    ctx: Context,
    v: Seq<bool>,
    cond: Seq<bool>,
    a: Seq<Option<i64>>,
    b: Seq<Option<i64>>,
    x: Seq<Option<T>>,
    periods: int,
    delay: int,
    flag: bool,
    other: bool,
    i: int,
)
    requires
        i % ctx.spec_chunk_size(v.len() as int) < ctx.spec_start(ctx.spec_chunk_size(v.len() as int)),
        v.len() == cond.len(),
        v.len() == a.len(),
        v.len() == b.len(),
        v.len() == x.len(),
    ensures
        grouped_cell(rule, ctx, v, periods, i).is_none(),
        periods != 1 ==> ma_cell(ctx, v, periods, i).is_none(),
        periods != 1 ==> lwma_cell(ctx, v, periods, i).is_none(),
        sumif_grouped_cell(ctx, v, cond, periods, i).is_none(),
        extremum_grouped_cell(flag, ctx, a, periods, i).is_none(),
        !crossing_grouped_cell(flag, other, ctx, a, b, periods, i),
        ref_grouped_cell(ctx, x, periods, i).is_none(),
        barslast_grouped_cell(ctx, cond, i).is_none(),
        barssince_grouped_cell(ctx, cond, i).is_none(),
        count_grouped_cell(ctx, cond, periods, i).is_none(),
        periods != 1 ==> ts_rank_grouped_cell(ctx, a, periods, i).is_none(),
        fret_grouped_cell(ctx, a, b, a, b, delay, periods, i).is_none(),
        ema_grouped_cell(ctx, v, periods, i) == EmaCell::Missing,
{
}

/// The window that a reducer names is the one that a look at the segment
/// alone gives: it ends at the position, holds the samples that its count
/// says, and
/// - where windows are counted in positions, it is made of the last
///   `periods` positions, as far as there are that many, and holds no
///   missing value;
/// - where missing values are skipped, it begins at a sample, holds
///   `periods` samples at most, and leaves out no sample since the first
///   written position unless it holds `periods` of them.
pub proof fn law_window_is_from_scratch(
    rule: Rule,
    skip: bool,
    strict: bool,
    v: Seq<bool>,
    periods: int,
    s: int,
    k: int,
    item: Item,
)
    requires
        v.len() <= usize::MAX,
        0 <= s,
        1 <= periods,
        !rule.every,
        rolling_cell(rule, skip, strict, v, periods, s, k) == Some(item),
    ensures
        s <= k < v.len(),
        item.end == k,
        item.start <= k,
        v[k],
        item.no_nan_count == count_true(v, item.start as int, k + 1),
        item.no_nan_count >= rule.least,
        item.no_nan_count >= 1,
        !skip ==> item.start == span_start(periods, k) && forall|j: int|
            item.start <= j <= k ==> v[j],
        skip ==> s <= item.start && v[item.start as int] && item.no_nan_count <= periods && (
        item.no_nan_count == periods || count_true(v, s, item.start as int) == 0),
{
    if skip {
        lemma_skip_start_exists(v, periods, s, k);
        let j = skip_start(v, periods, s, k);
        lemma_count_split(v, s, k, k + 1);
        lemma_count_bounds(v, s, k);
        lemma_count_bounds(v, j, k + 1);
        lemma_count_split(v, s, j, k + 1);
        lemma_count_bounds(v, s, j);
    } else {
        let lo = span_start(periods, k);
        lemma_count_bounds(v, lo, k + 1);
        lemma_count_full(v, lo, k + 1);
    }
}

/// Under the strict flag a window that has a value holds `periods` samples
/// at `periods` positions.
pub proof fn law_strict_needs_a_full_window(
    rule: Rule,
    skip: bool,
    v: Seq<bool>,
    periods: int,
    s: int,
    k: int,
    item: Item,
)
    requires
        v.len() <= usize::MAX,
        0 <= s,
        1 <= periods,
        !rule.every,
        rolling_cell(rule, skip, true, v, periods, s, k) == Some(item),
    ensures
        item.is_full(periods),
{
    law_window_is_from_scratch(rule, skip, true, v, periods, s, k, item);
}

/// The same for the extremes: under the strict flag the window of an
/// extreme holds `periods` samples at `periods` positions.
pub proof fn law_strict_extreme_needs_a_full_window(
    skip: bool,
    v: Seq<Option<i64>>,
    periods: int,
    s: int,
    k: int,
    item: Item,
)
    requires
        v.len() <= usize::MAX,
        0 <= s,
        1 <= periods,
        extremum_window(skip, true, present(v), periods, s, k) == Some(item),
    ensures
        item.is_full(periods),
{
    law_window_is_from_scratch(crate::sum::sum_rule(), skip, true, present(v), periods, s, k, item);
}

/// The place that is written for a window is where its extreme stands: it
/// lies in the window, holds a sample that no sample of the window exceeds,
/// and is the newest such place.
pub proof fn law_extreme_stands_in_its_window(
    highest: bool,
    skip: bool,
    strict: bool,
    v: Seq<Option<i64>>,
    periods: int,
    s: int,
    k: int,
    item: Item,
)
    requires
        v.len() <= usize::MAX,
        0 <= s,
        0 <= periods,
        extremum_window(skip, strict, present(v), periods, s, k) == Some(item),
    ensures
        s <= k < v.len(),
        item.end == k,
        is_extreme(
            highest,
            v,
            item.start as int,
            k,
            extreme_at(highest, v, item.start as int, item.end as int),
        ),
{
    let m = present(v);
    if periods != 0 {
        law_window_is_from_scratch(crate::sum::sum_rule(), skip, strict, m, periods, s, k, item);
    } else {
        lemma_count_bounds(m, s, k + 1);
    }
    lemma_extreme_exists(highest, v, item.start as int, k);
}

/// A series in which every position holds a sample.
pub open spec fn dense(n: int) -> Seq<bool> {
    Seq::new(n as nat, |i: int| true)
}

/// A series without a missing value holds as many samples as positions.
pub proof fn lemma_count_dense(n: int, lo: int, hi: int)
    requires
        0 <= lo <= hi <= n,
    ensures
        count_true(dense(n), lo, hi) == hi - lo,
    decreases hi - lo,
{
    if lo < hi {
        lemma_count_dense(n, lo, hi - 1);
    }
}

/// Where missing values are skipped, they might as well not be there. Take
/// the missing values out of a segment and run the reducer again, both times
/// from the first position and without the strict flag: a position that held
/// a sample has a value in one schedule exactly if it has one in the other,
/// and then over the same samples, the window of the second being the window
/// of the first without its missing values.
pub proof fn law_skip_ignores_missing(rule: Rule, v: Seq<bool>, periods: int, i: int)
    requires
        v.len() <= usize::MAX,
        0 <= periods,
        0 <= i < v.len(),
        v[i],
    ensures
        ({
            let k = count_true(v, 0, i);
            let packed = dense(count_true(v, 0, v.len() as int));
            match (
                rolling_cell(rule, true, false, v, periods, 0, i),
                rolling_cell(rule, true, false, packed, periods, 0, k),
            ) {
                (Some(a), Some(b)) => {
                    &&& b.end == k
                    &&& a.no_nan_count == b.no_nan_count
                    &&& b.start == count_true(v, 0, a.start as int)
                },
                (None, None) => true,
                _ => false,
            }
        }),
{
    let n = v.len() as int;
    let k = count_true(v, 0, i);
    let total = count_true(v, 0, n);
    let packed = dense(total);
    lemma_count_bounds(v, 0, i);
    lemma_count_bounds(v, 0, n);
    lemma_count_split(v, 0, i, i + 1);
    lemma_count_split(v, 0, i + 1, n);
    lemma_count_bounds(v, i + 1, n);
    assert(0 <= k < total);
    lemma_count_dense(total, 0, k + 1);
    if periods != 0 {
        lemma_skip_start_exists(v, periods, 0, i);
        let j = skip_start(v, periods, 0, i);
        lemma_count_split(v, 0, j, i + 1);
        lemma_count_bounds(v, 0, j);
        lemma_count_bounds(v, j, i + 1);
        let count = skip_count(v, periods, 0, i);
        assert(skip_count(packed, periods, 0, k) == count);
        let start = k + 1 - count;
        lemma_count_dense(total, start, k + 1);
        assert(is_skip_start(packed, periods, 0, k, start));
        lemma_skip_start_unique(packed, periods, 0, k, start);
    }
}

/// Shifting by nothing gives the series back at every written position.
pub proof fn law_ref_by_zero<T>(ctx: Context, v: Seq<Option<T>>, i: int)
    requires
        v.len() <= usize::MAX,
        segments_fit(ctx, v.len() as int),
        0 <= i < v.len(),
        i % ctx.spec_chunk_size(v.len() as int) >= ctx.spec_start(ctx.spec_chunk_size(v.len() as int)),
    ensures
        ref_grouped_cell(ctx, v, 0, i) == v[i],
{
    let c = ctx.spec_chunk_size(v.len() as int);
    let g = i / c;
    let k = i % c;
    assert(c > 0) by {
        if c <= 0 {
            assert(c * ctx.spec_groups() <= 0) by (nonlinear_arith)
                requires
                    c <= 0,
                    ctx.spec_groups() >= 1,
            ;
        }
    }
    vstd::arithmetic::div_mod::lemma_fundamental_div_mod(i, c);
    vstd::arithmetic::div_mod::lemma_mod_bound(i, c);
    vstd::arithmetic::mul::lemma_mul_is_commutative(c, g);
    assert(0 <= g < ctx.spec_groups()) by (nonlinear_arith)
        requires
            i == g * c + k,
            0 <= k < c,
            0 <= i < c * ctx.spec_groups(),
    ;
    lemma_alone(ctx, v, g, k);
    let seg = segment_of(v, c, i);
    let s = ctx.spec_start(c);
    assert(seg[k] == v[i]);
    if ctx.spec_skip_nan() && seg[k].is_some() {
        let m = present(seg);
        lemma_count_split(m, s, k, k + 1);
        lemma_count_bounds(m, s, k);
        assert(count_true(m, k, k + 1) == count_true(m, k, k) + 1);
        assert(is_skip_start(m, 1, s, k, k));
        lemma_skip_start_unique(m, 1, s, k, k);
    }
}

/// Shifting twice is shifting once by the sum, where positions are counted
/// as they stand and writing begins at the first position.
pub proof fn law_ref_twice<T>(ctx: Context, v: Seq<Option<T>>, first: int, second: int, i: int)
    requires
        0 <= first,
        0 <= second,
        !ctx.spec_skip_nan(),
        ctx.spec_start(ctx.spec_chunk_size(v.len() as int)) == 0,
        segments_fit(ctx, v.len() as int),
        0 <= i < v.len(),
    ensures
        ref_grouped_cell(
            ctx,
            Seq::new(v.len(), |j: int| ref_grouped_cell(ctx, v, first, j)),
            second,
            i,
        ) == ref_grouped_cell(ctx, v, first + second, i),
{
    let c = ctx.spec_chunk_size(v.len() as int);
    let g = i / c;
    let k = i % c;
    assert(c > 0) by {
        if c <= 0 {
            assert(c * ctx.spec_groups() <= 0) by (nonlinear_arith)
                requires
                    c <= 0,
                    ctx.spec_groups() >= 1,
            ;
        }
    }
    vstd::arithmetic::div_mod::lemma_fundamental_div_mod(i, c);
    vstd::arithmetic::div_mod::lemma_mod_bound(i, c);
    vstd::arithmetic::mul::lemma_mul_is_commutative(c, g);
    assert(0 <= g < ctx.spec_groups()) by (nonlinear_arith)
        requires
            i == g * c + k,
            0 <= k < c,
            0 <= i < c * ctx.spec_groups(),
    ;
    let once = Seq::new(v.len(), |j: int| ref_grouped_cell(ctx, v, first, j));
    lemma_alone(ctx, v, g, k);
    lemma_alone(ctx, once, g, k);
    if k >= second {
        let j = k - second;
        lemma_alone(ctx, v, g, j);
        assert(segment_of(once, c, i)[j] == once[g * c + j]);
    }
}

/// In the steady state a window of positions moves on by one position at
/// each step: the sample `periods` positions back leaves it, the sample of
/// the step enters, and its count changes by just these two.
pub proof fn law_window_slides(v: Seq<bool>, periods: int, s: int, i: int)
    requires
        v.len() <= usize::MAX,
        1 <= periods,
        0 <= s < i < v.len(),
        periods <= i,
    ensures
        ({
            let now = span_item(v, periods, s, i);
            let before = span_item(v, periods, s, i - 1);
            &&& now.prev_start == before.start
            &&& before.start == i - periods
            &&& now.start == i - periods + 1
            &&& now.no_nan_count + (if v[i - periods] { 1int } else { 0int }) == before.no_nan_count + (if v[i] {
                1int
            } else {
                0int
            })
        }),
{
    let lo = i - periods;
    lemma_count_bounds(v, lo, i);
    lemma_count_bounds(v, lo + 1, i + 1);
    lemma_count_first(v, lo, i + 1);
    lemma_count_split(v, lo, i, i + 1);
    assert(count_true(v, i, i + 1) == count_true(v, i, i) + if v[i] { 1int } else { 0int });
}

/// The schedule of the covariance of a series with itself is the schedule
/// of its variance.
pub proof fn law_cov_with_itself(ctx: Context, v: Seq<bool>, periods: int, i: int)
    ensures
        grouped_cell(var_rule(), ctx, both(v, v), periods, i) == grouped_cell(
            var_rule(),
            ctx,
            v,
            periods,
            i,
        ),
{
    assert(both(v, v) =~= v);
}

/// With a window of one position both averages give every sample back: the
/// window written at a position that holds a sample is that position alone,
/// and a position that holds none gets none.
pub proof fn law_average_of_one(ctx: Context, v: Seq<bool>, i: int)
    ensures
        ma_cell(ctx, v, 1, i) == copy_cell(ctx, v, i),
        lwma_cell(ctx, v, 1, i) == copy_cell(ctx, v, i),
        copy_cell(ctx, v, i) matches Some(item) ==> v[i] && item.start == item.end
            && item.no_nan_count == 1,
        copy_cell(ctx, v, i).is_none() ==> !v[i],
{
}

/// The window of the step at position `i` of one segment, by whichever way
/// of counting the flags and `periods` select.
pub open spec fn step_window(skip: bool, v: Seq<bool>, periods: int, s: int, i: int) -> Item {
    if periods == 0 {
        running_item(v, s, i)
    } else if skip {
        skip_item(v, periods, s, i)
    } else {
        span_item(v, periods, s, i)
    }
}

/// The list of windows holds, for every position from the first written
/// one on, the window of that step.
pub proof fn law_every_step_has_its_window(skip: bool, strict: bool, v: Seq<bool>, periods: int, s: int, i: int)
    requires
        s <= i < v.len(),
    ensures
        rolling_cell(step_rule(), skip, strict, v, periods, s, i) == Some(
            step_window(skip, v, periods, s, i),
        ),
{
}

/// Running state that follows the windows holds the samples of the window:
/// the first window of a segment ends at the first written position and
/// leaves out nothing that it names as given up; each later window ends one
/// position after the one before, begins no earlier, names as given up the
/// positions between the two beginnings, and holds the samples of the one
/// before, with the sample of its own position and without those given up.
pub proof fn law_steps_follow_the_window(skip: bool, v: Seq<bool>, periods: int, s: int, i: int)
    requires
        v.len() <= usize::MAX,
        0 <= periods,
        0 <= s <= i < v.len(),
    ensures
        ({
            let now = step_window(skip, v, periods, s, i);
            let before = step_window(skip, v, periods, s, i - 1);
            &&& now.end == i
            &&& now.prev_start <= now.start <= i + 1
            &&& now.no_nan_count == count_true(v, now.start as int, i + 1)
            &&& i == s ==> count_true(v, now.prev_start as int, now.start as int) == 0
            &&& i > s ==> {
                &&& before.end == i - 1
                &&& now.prev_start == before.start
                &&& now.no_nan_count + count_true(v, before.start as int, now.start as int)
                    == before.no_nan_count + (if v[i] { 1int } else { 0int })
            }
        }),
{
    lemma_count_split(v, s, i, i + 1);
    assert(count_true(v, i, i + 1) == count_true(v, i, i) + if v[i] { 1int } else { 0int });
    lemma_count_bounds(v, s, i + 1);
    lemma_count_bounds(v, s, i);
    if periods == 0 {
    } else if skip {
        lemma_skip_start_exists(v, periods, s, i);
        let b = skip_start(v, periods, s, i);
        lemma_count_bounds(v, b, i + 1);
        if i > s {
            lemma_skip_start_exists(v, periods, s, i - 1);
            let a = skip_start(v, periods, s, i - 1);
            lemma_skip_start_monotone(v, periods, s, i - 1, a, i, b);
            lemma_count_bounds(v, a, i);
            lemma_count_split(v, a, i, i + 1);
            lemma_count_split(v, a, b, i + 1);
        } else {
            lemma_count_split(v, s, b, i + 1);
            lemma_count_bounds(v, s, b);
        }
    } else {
        let b = span_start(periods, i);
        lemma_count_bounds(v, b, i + 1);
        if i > s {
            let a = span_start(periods, i - 1);
            lemma_count_bounds(v, a, i);
            lemma_count_split(v, a, i, i + 1);
            lemma_count_split(v, a, b, i + 1);
        }
    }
}

/// Where positions are counted as they stand, a row of `n` before `i` says
/// that each of the `n` positions before `i` had the first series on the
/// side that a crossing comes from.
pub proof fn lemma_run_is_window(
    rising: bool,
    a: Seq<Option<i64>>,
    b: Seq<Option<i64>>,
    lo: int,
    i: int,
    n: int,
)
    requires
        0 <= n,
        lo <= i,
    ensures
        run_before(rising, false, a, b, lo, i) >= n <==> (i - n >= lo && forall|j: int|
            i - n <= j < i ==> leads(rising, a, b, j)),
    decreases i - lo,
{
    lemma_run_bounds(rising, false, a, b, lo, i);
    if i > lo && n > 0 {
        lemma_run_is_window(rising, a, b, lo, i - 1, n - 1);
        if leads(rising, a, b, i - 1) {
            if i - n >= lo && (forall|j: int| i - n <= j < i - 1 ==> leads(rising, a, b, j)) {
                assert forall|j: int| i - n <= j < i implies leads(rising, a, b, j) by {}
            }
        }
    }
}

/// Where positions are counted as they stand, a long crossing is one
/// before which the first series was on the other side at each of the `n`
/// positions before, with a sample of either series at each of them.
pub proof fn law_long_cross_looks_at_a_window(
    rising: bool,
    a: Seq<Option<i64>>,
    b: Seq<Option<i64>>,
    n: int,
    s: int,
    i: int,
)
    requires
        0 <= n,
        0 <= s,
    ensures
        long_cell(rising, false, a, b, n, s, i) <==> {
            &&& s <= i < a.len()
            &&& lands(rising, a, b, i)
            &&& n <= i
            &&& forall|j: int| i - n <= j < i ==> leads(rising, a, b, j)
        },
{
    if s <= i {
        let lo = run_origin(false, n, s);
        lemma_run_is_window(rising, a, b, lo, i, n);
    }
}

/// The distance to the last position of a condition is taken to a position
/// at which the condition holds, and it holds at none after that one.
pub proof fn law_bars_reach_the_last_position(c: Seq<bool>, s: int, i: int)
    requires
        c.len() <= usize::MAX,
        0 <= s <= i < c.len(),
    ensures
        match barslast_cell(c, s, i) {
            Some(bars) => {
                &&& bars <= i - s
                &&& c[i - bars]
                &&& forall|k: int| i - bars < k <= i ==> !c[k]
            },
            None => forall|k: int| s <= k <= i ==> !c[k],
        },
{
    lemma_prev_true(c, s, i + 1);
}

/// The last position of a condition lies in its range and meets the
/// condition, and no position after it does.
pub proof fn lemma_prev_true(c: Seq<bool>, s: int, i: int)
    ensures
        prev_true(c, s, i) == -1 || (s <= prev_true(c, s, i) < i && c[prev_true(c, s, i)]),
        forall|k: int| prev_true(c, s, i) < k < i && s <= k ==> !c[k],
    decreases i - s,
{
    if i > s && !c[i - 1] {
        lemma_prev_true(c, s, i - 1);
    }
}

} // verus!
