//! Shifts, distances to a condition, and counts of a condition.

use vstd::prelude::*;
use vstd::slice::slice_subrange;
use crate::context::Context;
use crate::error::Error;
use crate::rolling::span_start;
use crate::segment::check_shape;
use crate::segment::is_length_mismatch;
use crate::segment::is_ragged;
use crate::segment::lemma_segment_end;
use crate::segment::lemma_segment_place;
use crate::segment::presence;
use crate::segment::present;
use crate::segment::segment_of;
use crate::segment::segments_fit;
use crate::skip_nan_window::count_true;
use crate::skip_nan_window::lemma_count_bounds;
use crate::skip_nan_window::lemma_count_first;
use crate::skip_nan_window::lemma_skip_start_unique;
use crate::skip_nan_window::next_true;
use crate::skip_nan_window::skip_count;
use crate::skip_nan_window::skip_start;
use crate::skip_nan_window::SkipNanWindow;

verus! {

/// What the shift by `periods` writes at position `i` of one segment `v`,
/// whose first written position is `s`: the value `periods` positions
/// before; where missing values are skipped, at a position that holds a
/// sample, the sample `periods` samples before, counted from `s` on.
pub open spec fn ref_cell<T>(skip: bool, v: Seq<Option<T>>, periods: int, s: int, i: int) -> Option<T> {
    if i < s || i >= v.len() {
        None
    } else if skip {
        if v[i].is_some() && skip_count(present(v), periods + 1, s, i) == periods + 1 {
            v[skip_start(present(v), periods + 1, s, i)]
        } else {
            None
        }
    } else {
        if i >= periods { v[i - periods] } else { None }
    }
}

/// What the shift by `periods` writes at position `i` of a whole series.
pub open spec fn ref_grouped_cell<T>(ctx: Context, v: Seq<Option<T>>, periods: int, i: int) -> Option<T> {
    let c = ctx.spec_chunk_size(v.len() as int);
    ref_cell(ctx.spec_skip_nan(), segment_of(v, c, i), periods, ctx.spec_start(c), i % c)
}

/// The last position before `i`, and not before `s`, at which the
/// condition holds; -1 where there is none.
pub open spec fn prev_true(c: Seq<bool>, s: int, i: int) -> int
    decreases i - s,
{
    if i <= s {
        -1
    } else if c[i - 1] {
        i - 1
    } else {
        prev_true(c, s, i - 1)
    }
}

/// The number of positions since the condition last held, at position `i`
/// of one segment; nothing before it first holds.
pub open spec fn barslast_cell(c: Seq<bool>, s: int, i: int) -> Option<usize> {
    if i < s || i >= c.len() || prev_true(c, s, i + 1) < 0 {
        None
    } else {
        Some((i - prev_true(c, s, i + 1)) as usize)
    }
}

/// The number of positions since the condition first held, at position `i`
/// of one segment; nothing before it first holds.
pub open spec fn barssince_cell(c: Seq<bool>, s: int, i: int) -> Option<usize> {
    if i < s || i >= c.len() || next_true(c, s, i + 1) > i {
        None
    } else {
        Some((i - next_true(c, s, i + 1)) as usize)
    }
}

/// The number of the last `periods` positions at which the condition
/// holds, at position `i` of one segment; with `periods` zero, of all
/// positions from the first written one on. Under the strict flag a window
/// of fewer than `periods` positions has no count.
pub open spec fn count_cell(strict: bool, c: Seq<bool>, periods: int, s: int, i: int) -> Option<usize> {
    if i < s || i >= c.len() {
        None
    } else if periods == 0 {
        Some(count_true(c, s, i + 1) as usize)
    } else if strict && i + 1 < periods {
        None
    } else {
        Some(count_true(c, span_start(periods, i), i + 1) as usize)
    }
}

/// The distance to the last position of the condition, at position `i` of
/// a whole series.
pub open spec fn barslast_grouped_cell(ctx: Context, c: Seq<bool>, i: int) -> Option<usize> {
    let n = ctx.spec_chunk_size(c.len() as int);
    barslast_cell(segment_of(c, n, i), ctx.spec_start(n), i % n)
}

/// The distance to the first position of the condition, at position `i`
/// of a whole series.
pub open spec fn barssince_grouped_cell(ctx: Context, c: Seq<bool>, i: int) -> Option<usize> {
    let n = ctx.spec_chunk_size(c.len() as int);
    barssince_cell(segment_of(c, n, i), ctx.spec_start(n), i % n)
}

/// The count of the condition at position `i` of a whole series.
pub open spec fn count_grouped_cell(ctx: Context, c: Seq<bool>, periods: int, i: int) -> Option<usize> {
    let n = ctx.spec_chunk_size(c.len() as int);
    count_cell(ctx.spec_strictly_cycle(), segment_of(c, n, i), periods, ctx.spec_start(n), i % n)
}

/// Writes the shifted values of one segment.
fn ref_segment<T: Copy>(ctx: &Context, r: &mut [Option<T>], input: &[Option<T>], mask: &[bool], base: usize, n: usize, periods: usize)
    requires
        base + n <= input@.len(),
        input@.len() == old(r)@.len(),
        input@.len() == mask@.len(),
        mask@ == present(input@),
    ensures
        final(r)@.len() == old(r)@.len(),
        forall|k: int| 0 <= k < base || base + n <= k < old(r)@.len() ==> final(r)@[k] == old(r)@[k],
        forall|k: int| 0 <= k < n ==> #[trigger] final(r)@[base + k] == ref_cell(
                ctx.spec_skip_nan(),
                input@.subrange(base as int, base + n),
                periods as int,
                ctx.spec_start(n as int),
                k,
            ),
{
    let len = input.len();
    let seg = slice_subrange(input, base, base + n);
    let flags = slice_subrange(mask, base, base + n);
    let s = ctx.start(n);
    let skip = ctx.skip_nan();
    let ghost v = seg@;
    let ghost m = present(v);
    assert(flags@ =~= m);
    let ghost before = r@;
    let mut k: usize = 0;
    while k < n
        invariant
            k <= n,
            base + n <= len,
            len == r@.len(),
            r@.len() == before.len(),
            forall|j: int| 0 <= j < base || base + n <= j < r@.len() ==> r@[j] == before[j],
            forall|j: int| 0 <= j < k ==> #[trigger] r@[base + j] == None::<T>,
        decreases n - k,
    {
        r[base + k] = None;
        k += 1;
    }
    if n == 0 {
        return ;
    }
    if skip {
        if periods == usize::MAX {
            proof {
                assert forall|j: int| 0 <= j < n implies #[trigger] r@[base + j] == ref_cell(
                    skip,
                    v,
                    periods as int,
                    s as int,
                    j,
                ) by {
                    lemma_count_bounds(m, s as int, j + 1);
                }
            }
            return ;
        }
        let width: usize = periods + 1;
        let mut iter = SkipNanWindow::new(flags, width, s);
        let mut i: usize = s;
        while i < n
            invariant
                s <= i <= n,
                v == seg@,
                m == present(v),
                v.len() == n,
                iter.samples() == m,
                iter.width() == width,
                iter.origin() == s,
                iter.position() == i,
                width == periods + 1,
                skip,
                base + n <= len,
                len == r@.len(),
                r@.len() == before.len(),
                forall|j: int| 0 <= j < base || base + n <= j < r@.len() ==> r@[j] == before[j],
                forall|j: int| i <= j < n ==> #[trigger] r@[base + j] == None::<T>,
                forall|j: int|
                    0 <= j < i ==> #[trigger] r@[base + j] == ref_cell(
                        skip,
                        v,
                        periods as int,
                        s as int,
                        j,
                    ),
            decreases n - i,
        {
            let item = iter.next().unwrap();
            if seg[i].is_some() && item.no_nan_count == width {
                proof {
                    lemma_count_bounds(m, item.start as int, i + 1);
                    lemma_skip_start_unique(m, width as int, s as int, i as int, item.start as int);
                }
                r[base + i] = seg[item.start];
            }
            i += 1;
        }
    } else {
        let mut i: usize = s;
        while i < n
            invariant
                s <= i <= n,
                v == seg@,
                v.len() == n,
                !skip,
                base + n <= len,
                len == r@.len(),
                r@.len() == before.len(),
                forall|j: int| 0 <= j < base || base + n <= j < r@.len() ==> r@[j] == before[j],
                forall|j: int| i <= j < n ==> #[trigger] r@[base + j] == None::<T>,
                forall|j: int|
                    0 <= j < i ==> #[trigger] r@[base + j] == ref_cell(
                        skip,
                        v,
                        periods as int,
                        s as int,
                        j,
                    ),
            decreases n - i,
        {
            if i >= periods {
                r[base + i] = seg[i - periods];
            }
            i += 1;
        }
    }
}

/// Writes the shifted values of every segment.

fn ref_grouped<T: Copy>(ctx: &Context, r: &mut [Option<T>], input: &[Option<T>], mask: &[bool], periods: usize) -> (res: Result<(), Error>)
    requires
        mask@ == present(input@),
    ensures
        final(r)@.len() == old(r)@.len(),
        match res {
            Ok(()) => {
                &&& old(r)@.len() == input@.len()
                &&& old(r)@.len() == mask@.len()
                &&& segments_fit(*ctx, input@.len() as int)
                &&& forall|i: int| 0 <= i < input@.len() ==> #[trigger] final(r)@[i] == ref_grouped_cell(*ctx, input@, periods as int, i)
            },
            Err(e) => {
                &&& final(r)@ == old(r)@
                &&& if old(r)@.len() != input@.len() || old(r)@.len() != mask@.len() {
                    is_length_mismatch(e, old(r)@.len() as int, input@.len() as int)
                } else {
                    !segments_fit(*ctx, input@.len() as int) && is_ragged(e, *ctx, input@.len() as int)
                }
            },
        },
{
    if r.len() != input.len() || r.len() != mask.len() {
        return Err(Error::LengthMismatch(r.len(), input.len()));
    }
    let len = input.len();
    let chunk = match check_shape(ctx, len) {
        Err(e) => { return Err(e); },
        Ok(chunk) => chunk,
    };
    if chunk == 0 {
        return Ok(());
    }
    let ghost c = chunk as int;
    let ghost groups = ctx.spec_groups();
    let mut base: usize = 0;
    let ghost mut g: int = 0;
    while base < len
        invariant
            len == input@.len(),
            len == mask@.len(),
            r@.len() == len,
            c == chunk,
            c > 0,
            len == c * groups,
            groups == ctx.spec_groups(),
            c == ctx.spec_chunk_size(len as int),
            0 <= g <= groups,
            base == g * c,
            base <= len,
            mask@ == present(input@),
            forall|i: int| 0 <= i < base ==> #[trigger] r@[i] == ref_grouped_cell(*ctx, input@, periods as int, i),
        decreases len - base,
    {
        proof {
            if g >= groups {
                vstd::arithmetic::mul::lemma_mul_inequality(groups, g, c);
                vstd::arithmetic::mul::lemma_mul_is_commutative(c, groups);
            }
            lemma_segment_end(c, groups, g);
        }
        let ghost prior = r@;
        ref_segment(ctx, r, input, mask, base, chunk, periods);
        proof {
            assert forall|i: int| 0 <= i < base + chunk implies #[trigger] r@[i] == ref_grouped_cell(*ctx, input@, periods as int, i) by {
                if i >= base {
                    let k = i - base;
                    lemma_segment_place(c, g, k);
                    assert(r@[base + k] == r@[i]);
                    assert(segment_of(input@, c, i) == input@.subrange(base as int, base + chunk));
                    assert(segment_of(mask@, c, i) == mask@.subrange(base as int, base + chunk));
                } else {
                    assert(r@[i] == prior[i]);
                }
            }
            g = g + 1;
        }
        base += chunk;
    }
    Ok(())
}

/// The series shifted by `periods` positions: `r[i]` comes out as the
/// value that `input` holds `periods` positions before `i`, within the
/// segment of `i`, or as `None` where that position does not exist. Where
/// missing values are skipped, a position that holds a sample gets the
/// sample `periods` samples before it, counted from the first written
/// position on, and a position that holds none gets `None`.
pub fn ta_ref<T: Copy>(ctx: &Context, r: &mut [Option<T>], input: &[Option<T>], periods: usize) -> (res: Result<(), Error>)
    ensures
        final(r)@.len() == old(r)@.len(),
        match res {
            Ok(()) => {
                &&& old(r)@.len() == input@.len()
                &&& segments_fit(*ctx, input@.len() as int)
                &&& forall|i: int|
                    0 <= i < input@.len() ==> #[trigger] final(r)@[i] == ref_grouped_cell(
                        *ctx,
                        input@,
                        periods as int,
                        i,
                    )
            },
            Err(e) => {
                &&& final(r)@ == old(r)@
                &&& if old(r)@.len() != input@.len() {
                    is_length_mismatch(e, old(r)@.len() as int, input@.len() as int)
                } else {
                    !segments_fit(*ctx, input@.len() as int) && is_ragged(e, *ctx, input@.len() as int)
                }
            },
        },
{
    if r.len() != input.len() {
        return Err(Error::LengthMismatch(r.len(), input.len()));
    }
    let mask = presence(input);
    ref_grouped(ctx, r, input, mask.as_slice(), periods)
}

/// Writes the distances to the last position of the condition, for one segment.
fn barslast_segment(ctx: &Context, r: &mut [Option<usize>], input: &[bool], base: usize, n: usize)
    requires
        base + n <= input@.len(),
        input@.len() == old(r)@.len(),
    ensures
        final(r)@.len() == old(r)@.len(),
        forall|k: int| 0 <= k < base || base + n <= k < old(r)@.len() ==> final(r)@[k] == old(r)@[k],
        forall|k: int| 0 <= k < n ==> #[trigger] final(r)@[base + k] == barslast_cell(
                input@.subrange(base as int, base + n),
                ctx.spec_start(n as int),
                k,
            ),
{
    let len = input.len();
    let seg = slice_subrange(input, base, base + n);
    let s = ctx.start(n);
    let ghost c = seg@;
    let ghost before = r@;
    let mut k: usize = 0;
    while k < n
        invariant
            k <= n,
            base + n <= len,
            len == r@.len(),
            r@.len() == before.len(),
            forall|j: int| 0 <= j < base || base + n <= j < r@.len() ==> r@[j] == before[j],
            forall|j: int| 0 <= j < k ==> #[trigger] r@[base + j] == None::<usize>,
        decreases n - k,
    {
        r[base + k] = None;
        k += 1;
    }
    if n == 0 {
        return ;
    }
    let mut found: bool = false;
    let mut last: usize = 0;
    let mut i: usize = s;
    while i < n
        invariant
            s <= i <= n,
            c == seg@,
            c.len() == n,
            found == (prev_true(c, s as int, i as int) >= 0),
            found ==> last == prev_true(c, s as int, i as int) && last < i,
                base + n <= len,
                len == r@.len(),
                r@.len() == before.len(),
                forall|j: int| 0 <= j < base || base + n <= j < r@.len() ==> r@[j] == before[j],
            forall|j: int| i <= j < n ==> #[trigger] r@[base + j] == None::<usize>,
            forall|j: int| 0 <= j < i ==> #[trigger] r@[base + j] == barslast_cell(c, s as int, j),
        decreases n - i,
    {
        if seg[i] {
            found = true;
            last = i;
        }
        if found {
            r[base + i] = Some(i - last);
        }
        i += 1;
    }
}

/// Writes the distances to the first position of the condition, for one segment.
fn barssince_segment(ctx: &Context, r: &mut [Option<usize>], input: &[bool], base: usize, n: usize)
    requires
        base + n <= input@.len(),
        input@.len() == old(r)@.len(),
    ensures
        final(r)@.len() == old(r)@.len(),
        forall|k: int| 0 <= k < base || base + n <= k < old(r)@.len() ==> final(r)@[k] == old(r)@[k],
        forall|k: int| 0 <= k < n ==> #[trigger] final(r)@[base + k] == barssince_cell(
                input@.subrange(base as int, base + n),
                ctx.spec_start(n as int),
                k,
            ),
{
    let len = input.len();
    let seg = slice_subrange(input, base, base + n);
    let s = ctx.start(n);
    let ghost c = seg@;
    let ghost before = r@;
    let mut k: usize = 0;
    while k < n
        invariant
            k <= n,
            base + n <= len,
            len == r@.len(),
            r@.len() == before.len(),
            forall|j: int| 0 <= j < base || base + n <= j < r@.len() ==> r@[j] == before[j],
            forall|j: int| 0 <= j < k ==> #[trigger] r@[base + j] == None::<usize>,
        decreases n - k,
    {
        r[base + k] = None;
        k += 1;
    }
    if n == 0 {
        return ;
    }
    let mut found: bool = false;
    let mut first: usize = 0;
    let mut i: usize = s;
    while i < n
        invariant
            s <= i <= n,
            c == seg@,
            c.len() == n,
            found == (next_true(c, s as int, i as int) < i),
            found ==> first == next_true(c, s as int, i as int),
                base + n <= len,
                len == r@.len(),
                r@.len() == before.len(),
                forall|j: int| 0 <= j < base || base + n <= j < r@.len() ==> r@[j] == before[j],
            forall|j: int| i <= j < n ==> #[trigger] r@[base + j] == None::<usize>,
            forall|j: int| 0 <= j < i ==> #[trigger] r@[base + j] == barssince_cell(c, s as int, j),
        decreases n - i,
    {
        proof {
            lemma_next_grows(c, s as int, i as int);
        }
        if !found && seg[i] {
            found = true;
            first = i;
        }
        if found {
            r[base + i] = Some(i - first);
        }
        i += 1;
    }
}

/// How the first position of the condition is found as the range grows.
pub proof fn lemma_next_grows(c: Seq<bool>, s: int, i: int)
    requires
        s <= i,
    ensures
        s <= next_true(c, s, i) <= i,
        next_true(c, s, i) < i ==> next_true(c, s, i + 1) == next_true(c, s, i),
        next_true(c, s, i) == i ==> next_true(c, s, i + 1) == (if c[i] { i } else { i + 1 }),
    decreases i - s,
{
    if s < i && !c[s] {
        lemma_next_grows(c, s + 1, i);
    } else if s == i {
        assert(next_true(c, s + 1, s + 1) == s + 1);
    }
}

/// Writes the counts of the condition, for one segment.
fn count_segment(ctx: &Context, r: &mut [Option<usize>], input: &[bool], base: usize, n: usize, periods: usize)
    requires
        base + n <= input@.len(),
        input@.len() == old(r)@.len(),
    ensures
        final(r)@.len() == old(r)@.len(),
        forall|k: int| 0 <= k < base || base + n <= k < old(r)@.len() ==> final(r)@[k] == old(r)@[k],
        forall|k: int| 0 <= k < n ==> #[trigger] final(r)@[base + k] == count_cell(
                ctx.spec_strictly_cycle(),
                input@.subrange(base as int, base + n),
                periods as int,
                ctx.spec_start(n as int),
                k,
            ),
{
    let len = input.len();
    let seg = slice_subrange(input, base, base + n);
    let s = ctx.start(n);
    let strict = ctx.strictly_cycle();
    let ghost c = seg@;
    let ghost before = r@;
    let mut k: usize = 0;
    while k < n
        invariant
            k <= n,
            base + n <= len,
            len == r@.len(),
            r@.len() == before.len(),
            forall|j: int| 0 <= j < base || base + n <= j < r@.len() ==> r@[j] == before[j],
            forall|j: int| 0 <= j < k ==> #[trigger] r@[base + j] == None::<usize>,
        decreases n - k,
    {
        r[base + k] = None;
        k += 1;
    }
    if n == 0 {
        return ;
    }
    let mut lo: usize = if periods == 0 {
        s
    } else if s + 1 > periods {
        s + 1 - periods
    } else {
        0
    };
    let mut count: usize = 0;
    let mut j: usize = lo;
    while j < s
        invariant
            lo <= j <= s < n,
            c == seg@,
            c.len() == n,
            count == count_true(c, lo as int, j as int),
        decreases s - j,
    {
        proof {
            lemma_count_bounds(c, lo as int, j as int);
        }
        if seg[j] {
            count += 1;
        }
        j += 1;
    }
    let mut i: usize = s;
    while i < n
        invariant
            s <= i <= n,
            c == seg@,
            c.len() == n,
            i < n ==> lo == if periods == 0 { s as int } else { span_start(periods as int, i as int) },
            i < n ==> count == count_true(c, lo as int, i as int),
                base + n <= len,
                len == r@.len(),
                r@.len() == before.len(),
                forall|j: int| 0 <= j < base || base + n <= j < r@.len() ==> r@[j] == before[j],
            forall|j: int| i <= j < n ==> #[trigger] r@[base + j] == None::<usize>,
            forall|j: int|
                0 <= j < i ==> #[trigger] r@[base + j] == count_cell(
                    strict,
                    c,
                    periods as int,
                    s as int,
                    j,
                ),
        decreases n - i,
    {
        proof {
            lemma_count_bounds(c, lo as int, i as int);
        }
        if seg[i] {
            count += 1;
        }
        if periods == 0 || !(strict && i + 1 < periods) {
            r[base + i] = Some(count);
        }
        if periods != 0 && i + 1 >= periods {
            proof {
                lemma_count_first(c, lo as int, i + 1);
                lemma_count_bounds(c, lo + 1, i + 1);
            }
            if seg[lo] {
                count -= 1;
            }
            lo += 1;
        }
        i += 1;
    }
}

/// The number of positions since the condition last held: zero where it
/// holds, `None` before it first holds from the first written position on.
pub fn ta_barslast(ctx: &Context, r: &mut [Option<usize>], input: &[bool]) -> (res: Result<(), Error>)
    ensures
        final(r)@.len() == old(r)@.len(),
        match res {
            Ok(()) => {
                &&& old(r)@.len() == input@.len()
                &&& segments_fit(*ctx, input@.len() as int)
                &&& forall|i: int| 0 <= i < input@.len() ==> #[trigger] final(r)@[i] == barslast_grouped_cell(*ctx, input@, i)
            },
            Err(e) => {
                &&& final(r)@ == old(r)@
                &&& if old(r)@.len() != input@.len() {
                    is_length_mismatch(e, old(r)@.len() as int, input@.len() as int)
                } else {
                    !segments_fit(*ctx, input@.len() as int) && is_ragged(e, *ctx, input@.len() as int)
                }
            },
        },
{
    if r.len() != input.len() {
        return Err(Error::LengthMismatch(r.len(), input.len()));
    }
    let len = input.len();
    let chunk = match check_shape(ctx, len) {
        Err(e) => { return Err(e); },
        Ok(chunk) => chunk,
    };
    if chunk == 0 {
        return Ok(());
    }
    let ghost c = chunk as int;
    let ghost groups = ctx.spec_groups();
    let mut base: usize = 0;
    let ghost mut g: int = 0;
    while base < len
        invariant
            len == input@.len(),
            r@.len() == len,
            c == chunk,
            c > 0,
            len == c * groups,
            groups == ctx.spec_groups(),
            c == ctx.spec_chunk_size(len as int),
            0 <= g <= groups,
            base == g * c,
            base <= len,
            forall|i: int| 0 <= i < base ==> #[trigger] r@[i] == barslast_grouped_cell(*ctx, input@, i),
        decreases len - base,
    {
        proof {
            if g >= groups {
                vstd::arithmetic::mul::lemma_mul_inequality(groups, g, c);
                vstd::arithmetic::mul::lemma_mul_is_commutative(c, groups);
            }
            lemma_segment_end(c, groups, g);
        }
        let ghost prior = r@;
        barslast_segment(ctx, r, input, base, chunk);
        proof {
            assert forall|i: int| 0 <= i < base + chunk implies #[trigger] r@[i] == barslast_grouped_cell(*ctx, input@, i) by {
                if i >= base {
                    let k = i - base;
                    lemma_segment_place(c, g, k);
                    assert(r@[base + k] == r@[i]);
                    assert(segment_of(input@, c, i) == input@.subrange(base as int, base + chunk));
                } else {
                    assert(r@[i] == prior[i]);
                }
            }
            g = g + 1;
        }
        base += chunk;
    }
    Ok(())
}

/// The number of positions since the condition first held from the first
/// written position on; `None` before that.
pub fn ta_barssince(ctx: &Context, r: &mut [Option<usize>], input: &[bool]) -> (res: Result<(), Error>)
    ensures
        final(r)@.len() == old(r)@.len(),
        match res {
            Ok(()) => {
                &&& old(r)@.len() == input@.len()
                &&& segments_fit(*ctx, input@.len() as int)
                &&& forall|i: int| 0 <= i < input@.len() ==> #[trigger] final(r)@[i] == barssince_grouped_cell(*ctx, input@, i)
            },
            Err(e) => {
                &&& final(r)@ == old(r)@
                &&& if old(r)@.len() != input@.len() {
                    is_length_mismatch(e, old(r)@.len() as int, input@.len() as int)
                } else {
                    !segments_fit(*ctx, input@.len() as int) && is_ragged(e, *ctx, input@.len() as int)
                }
            },
        },
{
    if r.len() != input.len() {
        return Err(Error::LengthMismatch(r.len(), input.len()));
    }
    let len = input.len();
    let chunk = match check_shape(ctx, len) {
        Err(e) => { return Err(e); },
        Ok(chunk) => chunk,
    };
    if chunk == 0 {
        return Ok(());
    }
    let ghost c = chunk as int;
    let ghost groups = ctx.spec_groups();
    let mut base: usize = 0;
    let ghost mut g: int = 0;
    while base < len
        invariant
            len == input@.len(),
            r@.len() == len,
            c == chunk,
            c > 0,
            len == c * groups,
            groups == ctx.spec_groups(),
            c == ctx.spec_chunk_size(len as int),
            0 <= g <= groups,
            base == g * c,
            base <= len,
            forall|i: int| 0 <= i < base ==> #[trigger] r@[i] == barssince_grouped_cell(*ctx, input@, i),
        decreases len - base,
    {
        proof {
            if g >= groups {
                vstd::arithmetic::mul::lemma_mul_inequality(groups, g, c);
                vstd::arithmetic::mul::lemma_mul_is_commutative(c, groups);
            }
            lemma_segment_end(c, groups, g);
        }
        let ghost prior = r@;
        barssince_segment(ctx, r, input, base, chunk);
        proof {
            assert forall|i: int| 0 <= i < base + chunk implies #[trigger] r@[i] == barssince_grouped_cell(*ctx, input@, i) by {
                if i >= base {
                    let k = i - base;
                    lemma_segment_place(c, g, k);
                    assert(r@[base + k] == r@[i]);
                    assert(segment_of(input@, c, i) == input@.subrange(base as int, base + chunk));
                } else {
                    assert(r@[i] == prior[i]);
                }
            }
            g = g + 1;
        }
        base += chunk;
    }
    Ok(())
}

/// The number of the last `periods` positions at which the condition
/// holds; with `periods` zero, of all positions from the first written one
/// on. Under the strict flag the positions before the first whole window get
/// `None`. Whether missing values are skipped makes no difference here.
pub fn ta_count(ctx: &Context, r: &mut [Option<usize>], input: &[bool], periods: usize) -> (res: Result<(), Error>)
    ensures
        final(r)@.len() == old(r)@.len(),
        match res {
            Ok(()) => {
                &&& old(r)@.len() == input@.len()
                &&& segments_fit(*ctx, input@.len() as int)
                &&& forall|i: int| 0 <= i < input@.len() ==> #[trigger] final(r)@[i] == count_grouped_cell(*ctx, input@, periods as int, i)
            },
            Err(e) => {
                &&& final(r)@ == old(r)@
                &&& if old(r)@.len() != input@.len() {
                    is_length_mismatch(e, old(r)@.len() as int, input@.len() as int)
                } else {
                    !segments_fit(*ctx, input@.len() as int) && is_ragged(e, *ctx, input@.len() as int)
                }
            },
        },
{
    if r.len() != input.len() {
        return Err(Error::LengthMismatch(r.len(), input.len()));
    }
    let len = input.len();
    let chunk = match check_shape(ctx, len) {
        Err(e) => { return Err(e); },
        Ok(chunk) => chunk,
    };
    if chunk == 0 {
        return Ok(());
    }
    let ghost c = chunk as int;
    let ghost groups = ctx.spec_groups();
    let mut base: usize = 0;
    let ghost mut g: int = 0;
    while base < len
        invariant
            len == input@.len(),
            r@.len() == len,
            c == chunk,
            c > 0,
            len == c * groups,
            groups == ctx.spec_groups(),
            c == ctx.spec_chunk_size(len as int),
            0 <= g <= groups,
            base == g * c,
            base <= len,
            forall|i: int| 0 <= i < base ==> #[trigger] r@[i] == count_grouped_cell(*ctx, input@, periods as int, i),
        decreases len - base,
    {
        proof {
            if g >= groups {
                vstd::arithmetic::mul::lemma_mul_inequality(groups, g, c);
                vstd::arithmetic::mul::lemma_mul_is_commutative(c, groups);
            }
            lemma_segment_end(c, groups, g);
        }
        let ghost prior = r@;
        count_segment(ctx, r, input, base, chunk, periods);
        proof {
            assert forall|i: int| 0 <= i < base + chunk implies #[trigger] r@[i] == count_grouped_cell(*ctx, input@, periods as int, i) by {
                if i >= base {
                    let k = i - base;
                    lemma_segment_place(c, g, k);
                    assert(r@[base + k] == r@[i]);
                    assert(segment_of(input@, c, i) == input@.subrange(base as int, base + chunk));
                } else {
                    assert(r@[i] == prior[i]);
                }
            }
            g = g + 1;
        }
        base += chunk;
    }
    Ok(())
}

} // verus!
