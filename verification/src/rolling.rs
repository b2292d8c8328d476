//! The schedule that the rolling reducers share: for each position, the
//! window whose samples are reduced there, or nothing.

use vstd::prelude::*;
use vstd::slice::slice_subrange;
use crate::context::Context;
use crate::error::Error;
use crate::segment::check_shape;
use crate::segment::is_ragged;
use crate::segment::lemma_segment_end;
use crate::segment::lemma_segment_place;
use crate::segment::segment_of;
use crate::segment::segments_fit;
use crate::skip_nan_window::count_true;
use crate::skip_nan_window::Item;
use crate::skip_nan_window::lemma_count_bounds;
use crate::skip_nan_window::lemma_count_first;
use crate::skip_nan_window::skip_item;
use crate::skip_nan_window::SkipNanWindow;

verus! {

/// What one reducer asks of a window before it writes a value.
#[derive(Debug, Clone, Copy)]
pub struct Rule {
    /// The least number of samples that the reducer's formula takes.
    pub least: usize,
    /// Whether, without the strict flag, a window of positions that is still
    /// shorter than `periods` gets a value.
    pub partial: bool,
    /// Whether, when missing values are skipped, a window has to hold
    /// `periods` samples even without the strict flag.
    pub exact: bool,
    /// Whether every window is written, whatever it holds: this is no
    /// reducer's rule, but that of the plain list of windows.
    pub every: bool,
}

/// Where the window of the last `p` positions begins at position `i`.
pub open spec fn span_start(p: int, i: int) -> int {
    if i + 1 - p > 0 { i + 1 - p } else { 0 }
}

/// The window of the last `periods` positions at position `i`, in a scan
/// that began at `s`.
pub open spec fn span_item(v: Seq<bool>, p: int, s: int, i: int) -> Item {
    Item {
        start: span_start(p, i) as usize,
        prev_start: (if i <= s { span_start(p, i) } else { span_start(p, i - 1) }) as usize,
        end: i as usize,
        no_nan_count: count_true(v, span_start(p, i), i + 1) as usize,
    }
}

/// The window that reaches from `s` to position `i`.
pub open spec fn running_item(v: Seq<bool>, s: int, i: int) -> Item {
    Item {
        start: s as usize,
        prev_start: s as usize,
        end: i as usize,
        no_nan_count: count_true(v, s, i + 1) as usize,
    }
}

/// Whether a reducer writes a value for the window `item`, whose last
/// position holds a sample or not, as `present` says.
pub open spec fn spec_emits(
    rule: Rule,
    skip: bool,
    strict: bool,
    periods: int,
    item: Item,
    present: bool,
) -> bool {
    ||| rule.every
    ||| {
        &&& present
        &&& item.no_nan_count >= rule.least
        &&& if skip {
            &&& strict ==> item.is_full(periods)
            &&& rule.exact ==> item.no_nan_count == periods
        } else {
            &&& !item.spec_has_nan()
            &&& (strict || !rule.partial) ==> item.span() == periods
        }
    }
}

/// What a reducer writes at position `i` of one segment `v`, whose first
/// written position is `s`: the window to reduce, or nothing.
pub open spec fn rolling_cell(
    rule: Rule,
    skip: bool,
    strict: bool,
    v: Seq<bool>,
    periods: int,
    s: int,
    i: int,
) -> Option<Item> {
    if i < s || i >= v.len() {
        None
    } else if periods == 0 {
        let item = running_item(v, s, i);
        if rule.every || item.no_nan_count >= 1 { Some(item) } else { None }
    } else {
        let item = if skip { skip_item(v, periods, s, i) } else { span_item(v, periods, s, i) };
        if spec_emits(rule, skip, strict, periods, item, v[i]) { Some(item) } else { None }
    }
}

/// What a reducer writes at position `i` of a whole series `v`.
pub open spec fn grouped_cell(rule: Rule, ctx: Context, v: Seq<bool>, periods: int, i: int) -> Option<Item> {
    let c = ctx.spec_chunk_size(v.len() as int);
    rolling_cell(
        rule,
        ctx.spec_skip_nan(),
        ctx.spec_strictly_cycle(),
        segment_of(v, c, i),
        periods,
        ctx.spec_start(c),
        i % c,
    )
}

/// Whether a reducer writes a value for the window `item`.
pub fn emits(rule: &Rule, skip: bool, strict: bool, periods: usize, item: &Item, present: bool) -> (b: bool)
    ensures
        b == spec_emits(*rule, skip, strict, periods as int, *item, present),
{
    if rule.every {
        return true;
    }
    if !present || item.no_nan_count < rule.least {
        return false;
    }
    let whole: bool = item.end as u128 + 1 == item.start as u128 + periods as u128;
    if skip {
        let full: bool = item.no_nan_count == periods && whole;
        (!strict || full) && (!rule.exact || item.no_nan_count == periods)
    } else {
        !item.has_nan() && (!(strict || !rule.partial) || whole)
    }
}

/// Writes the schedule of one segment, the samples `base..base + n` of `valid`.
pub(crate) fn plan_segment(
    rule: &Rule,
    ctx: &Context,
    r: &mut [Option<Item>],
    valid: &[bool],
    base: usize,
    n: usize,
    periods: usize,
)
    requires
        base + n <= valid@.len(),
        valid@.len() == old(r)@.len(),
    ensures
        final(r)@.len() == old(r)@.len(),
        forall|k: int| 0 <= k < base || base + n <= k < old(r)@.len() ==> final(r)@[k] == old(r)@[k],
        forall|k: int|
            0 <= k < n ==> #[trigger] final(r)@[base + k] == rolling_cell(
                *rule,
                ctx.spec_skip_nan(),
                ctx.spec_strictly_cycle(),
                valid@.subrange(base as int, base + n),
                periods as int,
                ctx.spec_start(n as int),
                k,
            ),
{
    let len = valid.len();
    let seg = slice_subrange(valid, base, base + n);
    let s = ctx.start(n);
    let skip = ctx.skip_nan();
    let strict = ctx.strictly_cycle();
    let ghost v = seg@;
    let ghost before = r@;
    let mut k: usize = 0;
    while k < n
        invariant
            k <= n,
            base + n <= len,
            len == r@.len(),
            r@.len() == before.len(),
            forall|j: int| 0 <= j < base || base + n <= j < r@.len() ==> r@[j] == before[j],
            forall|j: int| 0 <= j < k ==> #[trigger] r@[base + j] == None::<Item>,
        decreases n - k,
    {
        r[base + k] = None;
        k += 1;
    }
    if n == 0 {
        return ;
    }
    if periods == 0 {
        let mut count: usize = 0;
        let mut i: usize = s;
        while i < n
            invariant
                s <= i <= n,
                v == seg@,
                v.len() == n,
                base + n <= len,
                len == r@.len(),
                r@.len() == before.len(),
                count == count_true(v, s as int, i as int),
                forall|j: int| 0 <= j < base || base + n <= j < r@.len() ==> r@[j] == before[j],
                forall|j: int| i <= j < n ==> #[trigger] r@[base + j] == None::<Item>,
                forall|j: int|
                    0 <= j < i ==> #[trigger] r@[base + j] == rolling_cell(
                        *rule,
                        skip,
                        strict,
                        v,
                        0,
                        s as int,
                        j,
                    ),
            decreases n - i,
        {
            proof {
                lemma_count_bounds(v, s as int, i as int);
            }
            if seg[i] {
                count += 1;
            }
            if rule.every || count >= 1 {
                r[base + i] = Some(Item::new(s, s, i, count));
            }
            i += 1;
        }
    } else if skip {
        let mut iter = SkipNanWindow::new(seg, periods, s);
        let mut i: usize = s;
        while i < n
            invariant
                s <= i <= n,
                v == seg@,
                v.len() == n,
                iter.samples() == v,
                iter.width() == periods,
                iter.origin() == s,
                iter.position() == i,
                skip,
                periods != 0,
                base + n <= len,
                len == r@.len(),
                r@.len() == before.len(),
                forall|j: int| 0 <= j < base || base + n <= j < r@.len() ==> r@[j] == before[j],
                forall|j: int| i <= j < n ==> #[trigger] r@[base + j] == None::<Item>,
                forall|j: int|
                    0 <= j < i ==> #[trigger] r@[base + j] == rolling_cell(
                        *rule,
                        skip,
                        strict,
                        v,
                        periods as int,
                        s as int,
                        j,
                    ),
            decreases n - i,
        {
            let item = iter.next().unwrap();
            if emits(rule, skip, strict, periods, &item, seg[i]) {
                r[base + i] = Some(item);
            }
            i += 1;
        }
    } else {
        let mut lo: usize = if s + 1 > periods { s + 1 - periods } else { 0 };
        let mut count: usize = 0;
        let mut j: usize = lo;
        while j < s
            invariant
                lo <= j <= s < n,
                v == seg@,
                v.len() == n,
                count == count_true(v, lo as int, j as int),
            decreases s - j,
        {
            proof {
                lemma_count_bounds(v, lo as int, j as int);
            }
            if seg[j] {
                count += 1;
            }
            j += 1;
        }
        let mut prev: usize = lo;
        let mut i: usize = s;
        while i < n
            invariant
                s <= i <= n,
                v == seg@,
                v.len() == n,
                !skip,
                periods != 0,
                i < n ==> lo == span_start(periods as int, i as int),
                i < n ==> prev == if i <= s { span_start(periods as int, i as int) } else { span_start(periods as int, i - 1) },
                i < n ==> count == count_true(v, lo as int, i as int),
                base + n <= len,
                len == r@.len(),
                r@.len() == before.len(),
                forall|j: int| 0 <= j < base || base + n <= j < r@.len() ==> r@[j] == before[j],
                forall|j: int| i <= j < n ==> #[trigger] r@[base + j] == None::<Item>,
                forall|j: int|
                    0 <= j < i ==> #[trigger] r@[base + j] == rolling_cell(
                        *rule,
                        skip,
                        strict,
                        v,
                        periods as int,
                        s as int,
                        j,
                    ),
            decreases n - i,
        {
            proof {
                lemma_count_bounds(v, lo as int, i as int);
            }
            if seg[i] {
                count += 1;
            }
            let item = Item::new(lo, prev, i, count);
            if emits(rule, skip, strict, periods, &item, seg[i]) {
                r[base + i] = Some(item);
            }
            prev = lo;
            if i + 1 >= periods {
                proof {
                    lemma_count_first(v, lo as int, i + 1);
                    lemma_count_bounds(v, lo + 1, i + 1);
                }
                if seg[lo] {
                    count -= 1;
                }
                lo += 1;
            }
            i += 1;
        }
    }
}

/// Writes the schedule of every segment of a series.
pub(crate) fn plan_grouped(
    rule: &Rule,
    ctx: &Context,
    r: &mut [Option<Item>],
    valid: &[bool],
    periods: usize,
    chunk: usize,
)
    requires
        valid@.len() == old(r)@.len(),
        segments_fit(*ctx, valid@.len() as int),
        chunk == ctx.spec_chunk_size(valid@.len() as int),
    ensures
        final(r)@.len() == old(r)@.len(),
        forall|i: int|
            0 <= i < valid@.len() ==> #[trigger] final(r)@[i] == grouped_cell(
                *rule,
                *ctx,
                valid@,
                periods as int,
                i,
            ),
{
    let len = valid.len();
    if chunk == 0 {
        return ;
    }
    let ghost c = chunk as int;
    let ghost groups = ctx.spec_groups();
    let mut base: usize = 0;
    let ghost mut g: int = 0;
    while base < len
        invariant
            len == valid@.len(),
            r@.len() == len,
            c == chunk,
            c > 0,
            len == c * groups,
            groups == ctx.spec_groups(),
            c == ctx.spec_chunk_size(len as int),
            0 <= g <= groups,
            base == g * c,
            base <= len,
            forall|i: int|
                0 <= i < base ==> #[trigger] r@[i] == grouped_cell(
                    *rule,
                    *ctx,
                    valid@,
                    periods as int,
                    i,
                ),
        decreases len - base,
    {
        proof {
            if g >= groups {
                vstd::arithmetic::mul::lemma_mul_inequality(groups, g, c);
                vstd::arithmetic::mul::lemma_mul_is_commutative(c, groups);
            }
            lemma_segment_end(c, groups, g);
        }
        let ghost prior = r@;
        plan_segment(rule, ctx, r, valid, base, chunk, periods);
        proof {
            assert forall|i: int| 0 <= i < base + chunk implies #[trigger] r@[i] == grouped_cell(
                *rule,
                *ctx,
                valid@,
                periods as int,
                i,
            ) by {
                if i >= base {
                    let k = i - base;
                    lemma_segment_place(c, g, k);
                    assert(r@[base + k] == r@[i]);
                    assert(segment_of(valid@, c, i) == valid@.subrange(base as int, base + chunk));
                } else {
                    assert(r@[i] == prior[i]);
                }
            }
            g = g + 1;
        }
        base += chunk;
    }
}

/// Checks that the series is made of whole segments, then writes the
/// schedule of each of them.
pub(crate) fn run_reducer(
    rule: &Rule,
    ctx: &Context,
    r: &mut [Option<Item>],
    valid: &[bool],
    periods: usize,
) -> (res: Result<(), Error>)
    requires
        valid@.len() == old(r)@.len(),
    ensures
        final(r)@.len() == old(r)@.len(),
        match res {
            Ok(()) => {
                &&& segments_fit(*ctx, valid@.len() as int)
                &&& forall|i: int|
                    0 <= i < valid@.len() ==> #[trigger] final(r)@[i] == grouped_cell(
                        *rule,
                        *ctx,
                        valid@,
                        periods as int,
                        i,
                    )
            },
            Err(e) => {
                &&& final(r)@ == old(r)@
                &&& !segments_fit(*ctx, valid@.len() as int)
                &&& is_ragged(e, *ctx, valid@.len() as int)
            },
        },
{
    match check_shape(ctx, valid.len()) {
        Err(e) => Err(e),
        Ok(chunk) => {
            plan_grouped(rule, ctx, r, valid, periods, chunk);
            Ok(())
        },
    }
}

/// What a reducer with a window of one position writes at position `i` of
/// a series: the window of that one sample, where there is one.
pub open spec fn copy_cell(ctx: Context, v: Seq<bool>, i: int) -> Option<Item> {
    let k = i % ctx.spec_chunk_size(v.len() as int);
    if v[i] {
        Some(Item { start: k as usize, prev_start: k as usize, end: k as usize, no_nan_count: 1 })
    } else {
        None
    }
}

/// Checks that the series is made of whole segments, then writes at every
/// position that holds a sample the window of that one sample.
pub(crate) fn copy_grouped(ctx: &Context, r: &mut [Option<Item>], valid: &[bool]) -> (res: Result<
    (),
    Error,
>)
    requires
        valid@.len() == old(r)@.len(),
    ensures
        final(r)@.len() == old(r)@.len(),
        match res {
            Ok(()) => {
                &&& segments_fit(*ctx, valid@.len() as int)
                &&& forall|i: int|
                    0 <= i < valid@.len() ==> #[trigger] final(r)@[i] == copy_cell(*ctx, valid@, i)
            },
            Err(e) => {
                &&& final(r)@ == old(r)@
                &&& !segments_fit(*ctx, valid@.len() as int)
                &&& is_ragged(e, *ctx, valid@.len() as int)
            },
        },
{
    let len = valid.len();
    match check_shape(ctx, len) {
        Err(e) => Err(e),
        Ok(chunk) => {
            if chunk == 0 {
                return Ok(());
            }
            let ghost c = chunk as int;
            let ghost mut g: int = 0;
            let mut k: usize = 0;
            let mut i: usize = 0;
            while i < len
                invariant
                    len == valid@.len(),
                    len == r@.len(),
                    c == chunk,
                    c == ctx.spec_chunk_size(len as int),
                    0 <= g,
                    0 <= k < c,
                    i == g * c + k,
                    i <= len,
                    forall|j: int| 0 <= j < i ==> #[trigger] r@[j] == copy_cell(*ctx, valid@, j),
                decreases len - i,
            {
                proof {
                    lemma_segment_place(c, g, k as int);
                }
                if valid[i] {
                    r[i] = Some(Item::new(k, k, k, 1));
                } else {
                    r[i] = None;
                }
                i += 1;
                k += 1;
                if k == chunk {
                    k = 0;
                    proof {
                        assert((g + 1) * c == g * c + c) by (nonlinear_arith);
                        g = g + 1;
                    }
                }
            }
            Ok(())
        },
    }
}

/// The rule of the plain list of windows.
pub open spec fn step_rule() -> Rule {
    Rule { least: 0, partial: true, exact: false, every: true }
}

/// The window of every position from the first written one on, whether a
/// reducer has a value there or not: of the last `periods` positions or,
/// where missing values are skipped, samples; with `periods` zero, the
/// window that runs from the first written position.
///
/// A caller that keeps running state steps through these: at the first
/// window of a segment it takes in the samples at `start..=end`; at each
/// later one it takes in the sample at `end` and gives up those at
/// `prev_start..start`. What it then holds are the samples of the window.
pub fn window_steps(ctx: &Context, r: &mut [Option<Item>], input: &[bool], periods: usize) -> (res: Result<
    (),
    Error,
>)
    ensures
        final(r)@.len() == old(r)@.len(),
        match res {
            Ok(()) => {
                &&& old(r)@.len() == input@.len()
                &&& segments_fit(*ctx, input@.len() as int)
                &&& forall|i: int|
                    0 <= i < input@.len() ==> #[trigger] final(r)@[i] == grouped_cell(
                        step_rule(),
                        *ctx,
                        input@,
                        periods as int,
                        i,
                    )
            },
            Err(e) => {
                &&& final(r)@ == old(r)@
                &&& if old(r)@.len() != input@.len() {
                    crate::segment::is_length_mismatch(e, old(r)@.len() as int, input@.len() as int)
                } else {
                    !segments_fit(*ctx, input@.len() as int) && is_ragged(e, *ctx, input@.len() as int)
                }
            },
        },
{
    if r.len() != input.len() {
        return Err(Error::LengthMismatch(r.len(), input.len()));
    }
    let rule = Rule { least: 0, partial: true, exact: false, every: true };
    run_reducer(&rule, ctx, r, input, periods)
}

} // verus!
