//! Ranks: of a sample among the last samples of its own series, and of a
//! sample among those that the other segments hold at the same place.
//!
//! A series is read here as a sequence of keys, one per position: `Some(k)`
//! where the position holds a number, with `k` an integer that orders the
//! numbers as the numbers themselves are ordered, and `None` where the value
//! is missing. A missing value ranks above every number.

use vstd::prelude::*;
use vstd::slice::slice_subrange;
use crate::context::Context;
use crate::error::Error;
use crate::ordered::key_le;
use crate::ordered::not_above;
use crate::segment::blank;
use crate::segment::check_shape;
use crate::segment::is_length_mismatch;
use crate::segment::is_ragged;
use crate::segment::lemma_segment_end;
use crate::segment::lemma_segment_place;
use crate::segment::segment_of;
use crate::segment::segments_fit;
use crate::skip_nan_window::count_true;
use crate::skip_nan_window::lemma_count_bounds;

verus! {

/// The quotient of two counts.
#[derive(Debug, Clone, Copy, PartialEq, Eq, Structural)]
pub struct Ratio {
    pub num: u64,
    pub den: u64,
}

/// Where the window of the rank at position `i` begins: `periods`
/// positions are ranked, but none before the first written position `s`;
/// with `periods` zero, all from `s` on.
pub open spec fn rank_start(periods: int, s: int, i: int) -> int {
    if periods == 0 || i + 1 - periods < s {
        s
    } else {
        i + 1 - periods
    }
}

/// For each position of a series, whether its value is not greater than `x`.
pub open spec fn not_above_mask(v: Seq<Option<i64>>, x: Option<i64>) -> Seq<bool> {
    Seq::new(v.len(), |k: int| key_le(v[k], x))
}

/// What the rank in time writes at position `i` of one segment: the number
/// of values of the window that are not greater than the one at `i`. Under
/// the strict flag a window of fewer than `periods` positions has no rank.
pub open spec fn ts_rank_cell(strict: bool, v: Seq<Option<i64>>, periods: int, s: int, i: int) -> Option<usize> {
    if i < s || i >= v.len() {
        None
    } else if strict && i + 1 - rank_start(periods, s, i) < periods {
        None
    } else {
        Some(count_true(not_above_mask(v, v[i]), rank_start(periods, s, i), i + 1) as usize)
    }
}

/// What the rank in time writes at position `i` of a whole series. A window
/// of one position ranks every value first, whatever the context says.
pub open spec fn ts_rank_grouped_cell(ctx: Context, v: Seq<Option<i64>>, periods: int, i: int) -> Option<usize> {
    let c = ctx.spec_chunk_size(v.len() as int);
    if periods == 1 {
        Some(1)
    } else {
        ts_rank_cell(ctx.spec_strictly_cycle(), segment_of(v, c, i), periods, ctx.spec_start(c), i % c)
    }
}

/// Writes the ranks in time of one segment.
fn ts_rank_segment(ctx: &Context, r: &mut [Option<usize>], input: &[Option<i64>], base: usize, n: usize, periods: usize)
    requires
        base + n <= input@.len(),
        input@.len() == old(r)@.len(),
    ensures
        final(r)@.len() == old(r)@.len(),
        forall|k: int| 0 <= k < base || base + n <= k < old(r)@.len() ==> final(r)@[k] == old(r)@[k],
        forall|k: int| 0 <= k < n ==> #[trigger] final(r)@[base + k] == ts_rank_cell(
                ctx.spec_strictly_cycle(),
                input@.subrange(base as int, base + n),
                periods as int,
                ctx.spec_start(n as int),
                k,
            ),
{
    let len = input.len();
    let seg = slice_subrange(input, base, base + n);
    let s = ctx.start(n);
    let strict = ctx.strictly_cycle();
    let ghost v = seg@;
    let ghost before = r@;
    let mut k: usize = 0;
    while k < n
        invariant
            k <= n,
            base + n <= len,
            len == r@.len(),
            r@.len() == before.len(),
            forall|j: int| 0 <= j < base || base + n <= j < r@.len() ==> r@[j] == before[j],
            forall|j: int| 0 <= j < k ==> #[trigger] r@[base + j] == None::<usize>,
        decreases n - k,
    {
        r[base + k] = None;
        k += 1;
    }
    if n == 0 {
        return ;
    }
    let mut i: usize = s;
    while i < n
        invariant
            s <= i <= n,
            v == seg@,
            v.len() == n,
                base + n <= len,
                len == r@.len(),
                r@.len() == before.len(),
                forall|j: int| 0 <= j < base || base + n <= j < r@.len() ==> r@[j] == before[j],
            forall|j: int| i <= j < n ==> #[trigger] r@[base + j] == None::<usize>,
            forall|j: int|
                0 <= j < i ==> #[trigger] r@[base + j] == ts_rank_cell(
                    strict,
                    v,
                    periods as int,
                    s as int,
                    j,
                ),
        decreases n - i,
    {
        let lo: usize = if periods == 0 || i + 1 - s < periods {
            s
        } else {
            i + 1 - periods
        };
        if !(strict && i + 1 - lo < periods) {
            let x = seg[i];
            let ghost mask = not_above_mask(v, x);
            let mut rank: usize = 0;
            let mut j: usize = lo;
            while j <= i
                invariant
                    lo <= j <= i + 1,
                    i < n,
                    v == seg@,
                    v.len() == n,
                    mask == not_above_mask(v, x),
                    rank == count_true(mask, lo as int, j as int),
                decreases i + 1 - j,
            {
                proof {
                    lemma_count_bounds(mask, lo as int, j as int);
                }
                if not_above(seg[j], x) {
                    rank += 1;
                }
                j += 1;
            }
            r[base + i] = Some(rank);
        }
        i += 1;
    }
}

/// Writes the ranks in time of every segment.

fn ts_rank_windows(ctx: &Context, r: &mut [Option<usize>], input: &[Option<i64>], periods: usize) -> (res: Result<(), Error>)
    ensures
        final(r)@.len() == old(r)@.len(),
        match res {
            Ok(()) => {
                &&& old(r)@.len() == input@.len()
                &&& segments_fit(*ctx, input@.len() as int)
                &&& forall|i: int| 0 <= i < input@.len() ==> #[trigger] final(r)@[i] == ts_rank_cell(
                ctx.spec_strictly_cycle(),
                segment_of(input@, ctx.spec_chunk_size(input@.len() as int), i),
                periods as int,
                ctx.spec_start(ctx.spec_chunk_size(input@.len() as int)),
                i % ctx.spec_chunk_size(input@.len() as int),
            )
            },
            Err(e) => {
                &&& final(r)@ == old(r)@
                &&& if old(r)@.len() != input@.len() {
                    is_length_mismatch(e, old(r)@.len() as int, input@.len() as int)
                } else {
                    !segments_fit(*ctx, input@.len() as int) && is_ragged(e, *ctx, input@.len() as int)
                }
            },
        },
{
    if r.len() != input.len() {
        return Err(Error::LengthMismatch(r.len(), input.len()));
    }
    let len = input.len();
    let chunk = match check_shape(ctx, len) {
        Err(e) => { return Err(e); },
        Ok(chunk) => chunk,
    };
    if chunk == 0 {
        return Ok(());
    }
    let ghost c = chunk as int;
    let ghost groups = ctx.spec_groups();
    let mut base: usize = 0;
    let ghost mut g: int = 0;
    while base < len
        invariant
            len == input@.len(),
            r@.len() == len,
            c == chunk,
            c > 0,
            len == c * groups,
            groups == ctx.spec_groups(),
            c == ctx.spec_chunk_size(len as int),
            0 <= g <= groups,
            base == g * c,
            base <= len,
            forall|i: int| 0 <= i < base ==> #[trigger] r@[i] == ts_rank_cell(
                ctx.spec_strictly_cycle(),
                segment_of(input@, ctx.spec_chunk_size(input@.len() as int), i),
                periods as int,
                ctx.spec_start(ctx.spec_chunk_size(input@.len() as int)),
                i % ctx.spec_chunk_size(input@.len() as int),
            ),
        decreases len - base,
    {
        proof {
            if g >= groups {
                vstd::arithmetic::mul::lemma_mul_inequality(groups, g, c);
                vstd::arithmetic::mul::lemma_mul_is_commutative(c, groups);
            }
            lemma_segment_end(c, groups, g);
        }
        let ghost prior = r@;
        ts_rank_segment(ctx, r, input, base, chunk, periods);
        proof {
            assert forall|i: int| 0 <= i < base + chunk implies #[trigger] r@[i] == ts_rank_cell(
                ctx.spec_strictly_cycle(),
                segment_of(input@, ctx.spec_chunk_size(input@.len() as int), i),
                periods as int,
                ctx.spec_start(ctx.spec_chunk_size(input@.len() as int)),
                i % ctx.spec_chunk_size(input@.len() as int),
            ) by {
                if i >= base {
                    let k = i - base;
                    lemma_segment_place(c, g, k);
                    assert(r@[base + k] == r@[i]);
                    assert(segment_of(input@, c, i) == input@.subrange(base as int, base + chunk));
                } else {
                    assert(r@[i] == prior[i]);
                }
            }
            g = g + 1;
        }
        base += chunk;
    }
    Ok(())
}

/// The rank of each sample among the last `periods` values of its series,
/// the lowest value having rank 1; with `periods` zero, among all values
/// from the first written position on. Of equal values the newest ranks
/// highest, and a missing value ranks above every number.
pub fn ta_ts_rank(ctx: &Context, r: &mut [Option<usize>], input: &[Option<i64>], periods: usize) -> (res: Result<(), Error>)
    ensures
        final(r)@.len() == old(r)@.len(),
        match res {
            Ok(()) => {
                &&& old(r)@.len() == input@.len()
                &&& segments_fit(*ctx, input@.len() as int)
                &&& forall|i: int|
                    0 <= i < input@.len() ==> #[trigger] final(r)@[i] == ts_rank_grouped_cell(
                        *ctx,
                        input@,
                        periods as int,
                        i,
                    )
            },
            Err(e) => {
                &&& final(r)@ == old(r)@
                &&& if old(r)@.len() != input@.len() {
                    is_length_mismatch(e, old(r)@.len() as int, input@.len() as int)
                } else {
                    !segments_fit(*ctx, input@.len() as int) && is_ragged(e, *ctx, input@.len() as int)
                }
            },
        },
{
    if r.len() != input.len() {
        return Err(Error::LengthMismatch(r.len(), input.len()));
    }
    if periods != 1 {
        return ts_rank_windows(ctx, r, input, periods);
    }
    let len = input.len();
    match check_shape(ctx, len) {
        Err(e) => { return Err(e); },
        Ok(_) => {},
    }
    let mut i: usize = 0;
    while i < len
        invariant
            i <= len,
            len == r@.len(),
            forall|j: int| 0 <= j < i ==> r@[j] == Some(1usize),
        decreases len - i,
    {
        r[i] = Some(1);
        i += 1;
    }
    Ok(())
}

/// The values that the segments of a series hold at place `j`, one per
/// segment, where a segment has `c` positions.
pub open spec fn column(v: Seq<Option<i64>>, c: int, groups: int, j: int) -> Seq<Option<i64>> {
    Seq::new(groups as nat, |g: int| v[g * c + j])
}

/// For each value of a column, whether it is a number below `x`.
pub open spec fn below_mask(col: Seq<Option<i64>>, x: i64) -> Seq<bool> {
    Seq::new(col.len(), |k: int| col[k].is_some() && col[k].unwrap() < x)
}

/// For each value of a column, whether it is the number `x`.
pub open spec fn same_mask(col: Seq<Option<i64>>, x: i64) -> Seq<bool> {
    Seq::new(col.len(), |k: int| col[k] == Some(x))
}

/// For each value of a column, whether it is missing.
pub open spec fn missing_mask(col: Seq<Option<i64>>) -> Seq<bool> {
    Seq::new(col.len(), |k: int| col[k].is_none())
}

/// Twice the rank of the value that segment `g` holds in a column. Equal
/// numbers share the mean of the ranks that they take up together. Missing
/// values rank above all numbers, each by itself, in the order of their
/// segments.
pub open spec fn twice_rank(col: Seq<Option<i64>>, g: int) -> int {
    match col[g] {
        Some(x) => 2 * count_true(below_mask(col, x), 0, col.len() as int) + count_true(
            same_mask(col, x),
            0,
            col.len() as int,
        ) + 1,
        None => 2 * (col.len() - count_true(missing_mask(col), 0, col.len() as int) + count_true(
            missing_mask(col),
            0,
            g,
        )) + 2,
    }
}

/// What the rank across segments writes at position `i` of a series: the
/// rank of the value among those that the segments hold at the same place,
/// divided by the number of segments. With fewer than two segments it is the
/// rank of the value among all values from the first written position on.
pub open spec fn rank_cell(ctx: Context, v: Seq<Option<i64>>, i: int) -> Option<Ratio> {
    let c = ctx.spec_chunk_size(v.len() as int);
    let groups = ctx.spec_groups();
    if groups < 2 {
        match ts_rank_grouped_cell(ctx, v, 0, i) {
            Some(rank) => Some(Ratio { num: rank as u64, den: 1 }),
            None => None,
        }
    } else {
        Some(
            Ratio {
                num: twice_rank(column(v, c, groups, i % c), i / c) as u64,
                den: (2 * groups) as u64,
            },
        )
    }
}

/// Twice the rank of the value at `g * chunk + j` among the values of its column.
fn column_rank(input: &[Option<i64>], chunk: usize, groups: usize, g: usize, j: usize, at: usize) -> (twice: u64)
    requires
        input@.len() == chunk * groups,
        at == g * chunk + j,
        g < groups,
        j < chunk,
        groups <= u32::MAX,
    ensures
        twice == twice_rank(column(input@, chunk as int, groups as int, j as int), g as int),
        twice <= 2 * groups + 2,
{
    let ghost v = input@;
    let ghost c = chunk as int;
    let ghost col = column(v, c, groups as int, j as int);
    proof {
        lemma_column_index(c, groups as int, g as int, j as int);
    }
    let own = input[at];
    let mut below: u64 = 0;
    let mut same: u64 = 0;
    let mut missing: u64 = 0;
    let mut earlier: u64 = 0;
    let mut k: usize = 0;
    let mut idx: usize = j;
    while k < groups
        invariant
            k <= groups,
            groups <= u32::MAX,
            j < chunk,
            c == chunk,
            v == input@,
            v.len() == c * groups,
            col == column(v, c, groups as int, j as int),
            g < groups,
            own == col[g as int],
            k < groups ==> idx == k * c + j,
            missing == count_true(missing_mask(col), 0, k as int),
            earlier == count_true(missing_mask(col), 0, if k < g { k as int } else { g as int }),
            own matches Some(x) ==> below == count_true(below_mask(col, x), 0, k as int) && same
                == count_true(same_mask(col, x), 0, k as int),
            own.is_none() ==> below == 0 && same == 0,
            below + same + missing <= k,
            earlier <= missing,
        decreases groups - k,
    {
        proof {
            lemma_column_index(c, groups as int, k as int, j as int);
            if k + 1 < groups {
                lemma_column_index(c, groups as int, k + 1, j as int);
                assert((k + 1) * c == k * c + c) by (nonlinear_arith);
            }
            lemma_count_bounds(missing_mask(col), 0, k as int);
        }
        let other = input[idx];
        assert(other == col[k as int]);
        match other {
            None => {
                missing += 1;
                if k < g {
                    earlier += 1;
                }
            },
            Some(y) => {
                match own {
                    Some(x) => {
                        if y < x {
                            below += 1;
                        } else if y == x {
                            same += 1;
                        }
                    },
                    None => {},
                }
            },
        }
        k += 1;
        if k < groups {
            idx += chunk;
        }
    }
    match own {
        Some(_) => 2 * below + same + 1,
        None => 2 * (groups as u64 - missing + earlier) + 2,
    }
}

/// The value that segment `g` holds at place `j` lies inside the series.
pub proof fn lemma_column_index(c: int, groups: int, g: int, j: int)
    requires
        0 <= g < groups,
        0 <= j < c,
    ensures
        0 <= g * c + j < c * groups,
        (g * c + j) / c == g,
        (g * c + j) % c == j,
{
    lemma_segment_end(c, groups, g);
    lemma_segment_place(c, g, j);
    assert(0 <= g * c) by (nonlinear_arith)
        requires
            0 <= g,
            0 <= c,
    ;
}

/// The rank of each sample among the samples that the segments hold at the
/// same place, as a fraction of the number of segments: for every place the
/// values of all segments are ranked, the lowest first; equal numbers share
/// the mean of their ranks; what is written is that rank divided by the
/// number of segments. With fewer than two segments the rank of each sample
/// among all values of the series from the first written position on is
/// written instead, over 1.
pub fn ta_rank(ctx: &Context, r: &mut [Option<Ratio>], input: &[Option<i64>]) -> (res: Result<(), Error>)
    ensures
        final(r)@.len() == old(r)@.len(),
        match res {
            Ok(()) => {
                &&& old(r)@.len() == input@.len()
                &&& segments_fit(*ctx, input@.len() as int)
                &&& forall|i: int| 0 <= i < input@.len() ==> #[trigger] final(r)@[i] == rank_cell(*ctx, input@, i)
            },
            Err(e) => {
                &&& final(r)@ == old(r)@
                &&& if old(r)@.len() != input@.len() {
                    is_length_mismatch(e, old(r)@.len() as int, input@.len() as int)
                } else {
                    !segments_fit(*ctx, input@.len() as int) && is_ragged(e, *ctx, input@.len() as int)
                }
            },
        },
{
    if r.len() != input.len() {
        return Err(Error::LengthMismatch(r.len(), input.len()));
    }
    let len = input.len();
    let groups = ctx.groups();
    let chunk = match check_shape(ctx, len) {
        Err(e) => { return Err(e); },
        Ok(chunk) => chunk,
    };
    let ghost c = chunk as int;
    if groups < 2 {
        let mut ranks: Vec<Option<usize>> = blank(len);
        match ta_ts_rank(ctx, ranks.as_mut_slice(), input, 0) {
            Err(e) => { return Err(e); },
            Ok(()) => {},
        }
        let mut i: usize = 0;
        while i < len
            invariant
                i <= len,
                len == r@.len(),
                len == input@.len(),
                len == ranks@.len(),
                groups == ctx.spec_groups(),
                groups < 2,
                forall|j: int|
                    0 <= j < len ==> #[trigger] ranks@[j] == ts_rank_grouped_cell(*ctx, input@, 0, j),
                forall|j: int| 0 <= j < i ==> #[trigger] r@[j] == rank_cell(*ctx, input@, j),
            decreases len - i,
        {
            match ranks[i] {
                Some(rank) => {
                    r[i] = Some(Ratio { num: rank as u64, den: 1 });
                },
                None => {
                    r[i] = None;
                },
            }
            i += 1;
        }
        return Ok(());
    }
    if chunk == 0 {
        return Ok(());
    }
    proof {
        vstd::arithmetic::mul::lemma_mul_is_commutative(c, groups as int);
    }
    let den: u64 = 2 * (groups as u64);
    let mut g: usize = 0;
    let mut base: usize = 0;
    while g < groups
        invariant
            g <= groups,
            groups == ctx.spec_groups(),
            groups >= 2,
            groups <= u32::MAX,
            den == 2 * groups,
            c == chunk,
            c > 0,
            c == ctx.spec_chunk_size(len as int),
            len == c * groups,
            len == chunk * groups,
            len == r@.len(),
            len == input@.len(),
            base == g * c,
            base <= len,
            forall|i: int| 0 <= i < base ==> #[trigger] r@[i] == rank_cell(*ctx, input@, i),
        decreases groups - g,
    {
        proof {
            lemma_segment_end(c, groups as int, g as int);
        }
        let mut j: usize = 0;
        while j < chunk
            invariant
                j <= chunk,
                g < groups,
                groups == ctx.spec_groups(),
                groups >= 2,
                groups <= u32::MAX,
                den == 2 * groups,
                c == chunk,
                c > 0,
                c == ctx.spec_chunk_size(len as int),
                len == c * groups,
                len == chunk * groups,
                len == r@.len(),
                len == input@.len(),
                base == g * c,
                base + c <= len,
                forall|i: int| 0 <= i < base + j ==> #[trigger] r@[i] == rank_cell(*ctx, input@, i),
            decreases chunk - j,
        {
            proof {
                lemma_column_index(c, groups as int, g as int, j as int);
            }
            let twice = column_rank(input, chunk, groups, g, j, base + j);
            r[base + j] = Some(Ratio { num: twice, den });
            j += 1;
        }
        g += 1;
        base += chunk;
    }
    Ok(())
}

} // verus!
