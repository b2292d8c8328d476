//! Crossings of two series.
//!
//! A series is read here as a sequence of keys, one per position: `Some(k)`
//! where the position holds a number, with `k` an integer that orders the
//! numbers as the numbers themselves are ordered, and `None` where the value
//! is missing. A crossing is called rising where the first series comes from
//! below the second, falling where it comes from above.

use vstd::prelude::*;
use vstd::slice::slice_subrange;
use crate::context::Context;
use crate::error::Error;
use crate::segment::check_shape;
use crate::segment::is_length_mismatch;
use crate::segment::is_ragged;
use crate::segment::lemma_segment_end;
use crate::segment::lemma_segment_place;
use crate::segment::segment_of;
use crate::segment::segments_fit;

verus! {

/// Whether both series hold a sample at position `i`.
pub open spec fn pair_ok(a: Seq<Option<i64>>, b: Seq<Option<i64>>, i: int) -> bool {
    a[i].is_some() && b[i].is_some()
}

/// Whether, at position `i`, the first series is on the side that a
/// crossing comes from: below the second for a rising one, above it for a
/// falling one.
pub open spec fn leads(rising: bool, a: Seq<Option<i64>>, b: Seq<Option<i64>>, i: int) -> bool {
    &&& pair_ok(a, b, i)
    &&& if rising { a[i].unwrap() < b[i].unwrap() } else { a[i].unwrap() > b[i].unwrap() }
}

/// Whether, at position `i`, the first series is on the side that a
/// crossing arrives at: at or above the second for a rising one, at or below
/// it for a falling one.
pub open spec fn lands(rising: bool, a: Seq<Option<i64>>, b: Seq<Option<i64>>, i: int) -> bool {
    &&& pair_ok(a, b, i)
    &&& if rising { a[i].unwrap() >= b[i].unwrap() } else { a[i].unwrap() <= b[i].unwrap() }
}

/// The last position before `i`, and not before `s`, at which both series
/// hold a sample; -1 where there is none.
pub open spec fn prev_pair(a: Seq<Option<i64>>, b: Seq<Option<i64>>, s: int, i: int) -> int
    decreases i - s,
{
    if i <= s {
        -1
    } else if pair_ok(a, b, i - 1) {
        i - 1
    } else {
        prev_pair(a, b, s, i - 1)
    }
}

/// Whether the series cross at position `i` of one segment: the first
/// series arrives there, and was on the other side at the position before
/// or, where missing values are skipped, at the last position from `s` on at
/// which both series held a sample.
pub open spec fn cross_cell(
    rising: bool,
    skip: bool,
    a: Seq<Option<i64>>,
    b: Seq<Option<i64>>,
    s: int,
    i: int,
) -> bool {
    &&& s <= i < a.len()
    &&& lands(rising, a, b, i)
    &&& if skip {
        prev_pair(a, b, s, i) >= 0 && leads(rising, a, b, prev_pair(a, b, s, i))
    } else {
        i >= 1 && leads(rising, a, b, i - 1)
    }
}

/// The number of positions in a row, just before `i` and not before `lo`,
/// at which the first series was on the side that a crossing comes from.
/// A position without a pair of samples ends the row, unless missing values
/// are skipped: then it is passed over.
pub open spec fn run_before(
    rising: bool,
    skip: bool,
    a: Seq<Option<i64>>,
    b: Seq<Option<i64>>,
    lo: int,
    i: int,
) -> int
    decreases i - lo,
{
    if i <= lo {
        0
    } else if leads(rising, a, b, i - 1) {
        run_before(rising, skip, a, b, lo, i - 1) + 1
    } else if skip && !pair_ok(a, b, i - 1) {
        run_before(rising, skip, a, b, lo, i - 1)
    } else {
        0
    }
}

/// Where the count of a long crossing begins: at the first written
/// position `s` where missing values are skipped, else `n` positions before it.
pub open spec fn run_origin(skip: bool, n: int, s: int) -> int {
    if skip {
        s
    } else if s > n {
        s - n
    } else {
        0
    }
}

/// Whether the series cross at position `i` of one segment after the first
/// was on the other side for `n` positions in a row.
pub open spec fn long_cell(
    rising: bool,
    skip: bool,
    a: Seq<Option<i64>>,
    b: Seq<Option<i64>>,
    n: int,
    s: int,
    i: int,
) -> bool {
    &&& s <= i < a.len()
    &&& lands(rising, a, b, i)
    &&& run_before(rising, skip, a, b, run_origin(skip, n, s), i) >= n
}

/// Whether the series cross at position `i` of a whole series.
pub open spec fn cross_grouped_cell(
    rising: bool,
    ctx: Context,
    a: Seq<Option<i64>>,
    b: Seq<Option<i64>>,
    i: int,
) -> bool {
    let c = ctx.spec_chunk_size(a.len() as int);
    cross_cell(
        rising,
        ctx.spec_skip_nan(),
        segment_of(a, c, i),
        segment_of(b, c, i),
        ctx.spec_start(c),
        i % c,
    )
}

/// Whether the series cross at position `i` of a whole series after `n`
/// positions in a row on the other side.
pub open spec fn long_grouped_cell(
    rising: bool,
    ctx: Context,
    a: Seq<Option<i64>>,
    b: Seq<Option<i64>>,
    n: int,
    i: int,
) -> bool {
    let c = ctx.spec_chunk_size(a.len() as int);
    long_cell(
        rising,
        ctx.spec_skip_nan(),
        segment_of(a, c, i),
        segment_of(b, c, i),
        n,
        ctx.spec_start(c),
        i % c,
    )
}

/// Either kind of crossing at position `i` of a whole series.
pub open spec fn crossing_grouped_cell(
    long: bool,
    rising: bool,
    ctx: Context,
    a: Seq<Option<i64>>,
    b: Seq<Option<i64>>,
    n: int,
    i: int,
) -> bool {
    if long {
        long_grouped_cell(rising, ctx, a, b, n, i)
    } else {
        cross_grouped_cell(rising, ctx, a, b, i)
    }
}

/// Either kind of crossing at position `i` of one segment.
pub open spec fn crossing_cell(
    long: bool,
    rising: bool,
    skip: bool,
    a: Seq<Option<i64>>,
    b: Seq<Option<i64>>,
    n: int,
    s: int,
    i: int,
) -> bool {
    if long {
        long_cell(rising, skip, a, b, n, s, i)
    } else {
        cross_cell(rising, skip, a, b, s, i)
    }
}

/// A row is never longer than the positions it was counted over.
pub proof fn lemma_run_bounds(
    rising: bool,
    skip: bool,
    a: Seq<Option<i64>>,
    b: Seq<Option<i64>>,
    lo: int,
    i: int,
)
    ensures
        0 <= run_before(rising, skip, a, b, lo, i),
        lo <= i ==> run_before(rising, skip, a, b, lo, i) <= i - lo,
    decreases i - lo,
{
    if i > lo {
        lemma_run_bounds(rising, skip, a, b, lo, i - 1);
    }
}

fn pair_at(a: &[Option<i64>], b: &[Option<i64>], i: usize) -> (r: bool)
    requires
        i < a@.len(),
        i < b@.len(),
    ensures
        r == pair_ok(a@, b@, i as int),
{
    a[i].is_some() && b[i].is_some()
}

fn leads_at(rising: bool, a: &[Option<i64>], b: &[Option<i64>], i: usize) -> (r: bool)
    requires
        i < a@.len(),
        i < b@.len(),
    ensures
        r == leads(rising, a@, b@, i as int),
{
    match (a[i], b[i]) {
        (Some(x), Some(y)) => if rising { x < y } else { x > y },
        _ => false,
    }
}

fn lands_at(rising: bool, a: &[Option<i64>], b: &[Option<i64>], i: usize) -> (r: bool)
    requires
        i < a@.len(),
        i < b@.len(),
    ensures
        r == lands(rising, a@, b@, i as int),
{
    match (a[i], b[i]) {
        (Some(x), Some(y)) => if rising { x >= y } else { x <= y },
        _ => false,
    }
}

/// Writes the crossings of one segment, the positions `base..base + len`.
fn crossing_segment(
    ctx: &Context,
    r: &mut [bool],
    a: &[Option<i64>],
    b: &[Option<i64>],
    base: usize,
    len: usize,
    long: bool,
    n: usize,
    rising: bool,
)
    requires
        base + len <= a@.len(),
        a@.len() == b@.len(),
        a@.len() == old(r)@.len(),
    ensures
        final(r)@.len() == old(r)@.len(),
        forall|k: int| 0 <= k < base || base + len <= k < old(r)@.len() ==> final(r)@[k] == old(r)@[k],
        forall|k: int|
            0 <= k < len ==> #[trigger] final(r)@[base + k] == crossing_cell(
                long,
                rising,
                ctx.spec_skip_nan(),
                a@.subrange(base as int, base + len),
                b@.subrange(base as int, base + len),
                n as int,
                ctx.spec_start(len as int),
                k,
            ),
{
    let total = a.len();
    let x = slice_subrange(a, base, base + len);
    let y = slice_subrange(b, base, base + len);
    let s = ctx.start(len);
    let skip = ctx.skip_nan();
    let ghost before = r@;
    let mut k: usize = 0;
    while k < len
        invariant
            k <= len,
            base + len <= total,
            total == r@.len(),
            r@.len() == before.len(),
            forall|j: int| 0 <= j < base || base + len <= j < r@.len() ==> r@[j] == before[j],
            forall|j: int| 0 <= j < k ==> #[trigger] r@[base + j] == false,
        decreases len - k,
    {
        r[base + k] = false;
        k += 1;
    }
    if len == 0 {
        return ;
    }
    if long {
        let lo: usize = if skip {
            s
        } else if s > n {
            s - n
        } else {
            0
        };
        let mut run: usize = 0;
        let mut j: usize = lo;
        while j < s
            invariant
                lo <= j <= s < len,
                x@.len() == len,
                y@.len() == len,
                run == run_before(rising, skip, x@, y@, lo as int, j as int),
            decreases s - j,
        {
            proof {
                lemma_run_bounds(rising, skip, x@, y@, lo as int, j as int);
            }
            if leads_at(rising, x, y, j) {
                run += 1;
            } else if !(skip && !pair_at(x, y, j)) {
                run = 0;
            }
            j += 1;
        }
        let mut i: usize = s;
        while i < len
            invariant
                s <= i <= len,
                long,
                x@.len() == len,
                y@.len() == len,
                lo == run_origin(skip, n as int, s as int),
                run == run_before(rising, skip, x@, y@, lo as int, i as int),
                base + len <= total,
                total == r@.len(),
                r@.len() == before.len(),
                forall|j: int| 0 <= j < base || base + len <= j < r@.len() ==> r@[j] == before[j],
                forall|j: int| i <= j < len ==> #[trigger] r@[base + j] == false,
                forall|j: int|
                    0 <= j < i ==> #[trigger] r@[base + j] == crossing_cell(
                        long,
                        rising,
                        skip,
                        x@,
                        y@,
                        n as int,
                        s as int,
                        j,
                    ),
            decreases len - i,
        {
            proof {
                lemma_run_bounds(rising, skip, x@, y@, lo as int, i as int);
            }
            if lands_at(rising, x, y, i) {
                if run >= n {
                    r[base + i] = true;
                }
                run = 0;
            } else if leads_at(rising, x, y, i) {
                run += 1;
            } else if !skip {
                run = 0;
            }
            i += 1;
        }
    } else if skip {
        let mut seen: bool = false;
        let mut led: bool = false;
        let mut i: usize = s;
        while i < len
            invariant
                s <= i <= len,
                !long,
                skip,
                x@.len() == len,
                y@.len() == len,
                seen == (prev_pair(x@, y@, s as int, i as int) >= 0),
                seen ==> led == leads(rising, x@, y@, prev_pair(x@, y@, s as int, i as int)),
                base + len <= total,
                total == r@.len(),
                r@.len() == before.len(),
                forall|j: int| 0 <= j < base || base + len <= j < r@.len() ==> r@[j] == before[j],
                forall|j: int| i <= j < len ==> #[trigger] r@[base + j] == false,
                forall|j: int|
                    0 <= j < i ==> #[trigger] r@[base + j] == crossing_cell(
                        long,
                        rising,
                        skip,
                        x@,
                        y@,
                        n as int,
                        s as int,
                        j,
                    ),
            decreases len - i,
        {
            if pair_at(x, y, i) {
                if seen && led && lands_at(rising, x, y, i) {
                    r[base + i] = true;
                }
                seen = true;
                led = leads_at(rising, x, y, i);
            }
            i += 1;
        }
    } else {
        let mut i: usize = s;
        while i < len
            invariant
                s <= i <= len,
                !long,
                !skip,
                x@.len() == len,
                y@.len() == len,
                base + len <= total,
                total == r@.len(),
                r@.len() == before.len(),
                forall|j: int| 0 <= j < base || base + len <= j < r@.len() ==> r@[j] == before[j],
                forall|j: int| i <= j < len ==> #[trigger] r@[base + j] == false,
                forall|j: int|
                    0 <= j < i ==> #[trigger] r@[base + j] == crossing_cell(
                        long,
                        rising,
                        skip,
                        x@,
                        y@,
                        n as int,
                        s as int,
                        j,
                    ),
            decreases len - i,
        {
            if i >= 1 && leads_at(rising, x, y, i - 1) && lands_at(rising, x, y, i) {
                r[base + i] = true;
            }
            i += 1;
        }
    }
}

/// Checks the lengths, then writes the crossings of every segment.
fn crossing(
    ctx: &Context,
    r: &mut [bool],
    a: &[Option<i64>],
    b: &[Option<i64>],
    long: bool,
    n: usize,
    rising: bool,
) -> (res: Result<(), Error>)
    ensures
        final(r)@.len() == old(r)@.len(),
        match res {
            Ok(()) => {
                &&& old(r)@.len() == a@.len()
                &&& old(r)@.len() == b@.len()
                &&& segments_fit(*ctx, a@.len() as int)
                &&& forall|i: int|
                    0 <= i < a@.len() ==> #[trigger] final(r)@[i] == crossing_grouped_cell(
                        long,
                        rising,
                        *ctx,
                        a@,
                        b@,
                        n as int,
                        i,
                    )
            },
            Err(e) => {
                &&& final(r)@ == old(r)@
                &&& if old(r)@.len() != a@.len() || old(r)@.len() != b@.len() {
                    is_length_mismatch(e, old(r)@.len() as int, a@.len() as int)
                } else {
                    !segments_fit(*ctx, a@.len() as int) && is_ragged(e, *ctx, a@.len() as int)
                }
            },
        },
{
    if r.len() != a.len() || r.len() != b.len() {
        return Err(Error::LengthMismatch(r.len(), a.len()));
    }
    let len = a.len();
    let chunk = match check_shape(ctx, len) {
        Err(e) => { return Err(e); },
        Ok(chunk) => chunk,
    };
    if chunk == 0 {
        return Ok(());
    }
    let ghost c = chunk as int;
    let ghost groups = ctx.spec_groups();
    let mut base: usize = 0;
    let ghost mut g: int = 0;
    while base < len
        invariant
            len == a@.len(),
            len == b@.len(),
            r@.len() == len,
            c == chunk,
            c > 0,
            len == c * groups,
            groups == ctx.spec_groups(),
            c == ctx.spec_chunk_size(len as int),
            0 <= g <= groups,
            base == g * c,
            base <= len,
            forall|i: int|
                0 <= i < base ==> #[trigger] r@[i] == crossing_grouped_cell(
                    long,
                    rising,
                    *ctx,
                    a@,
                    b@,
                    n as int,
                    i,
                ),
        decreases len - base,
    {
        proof {
            if g >= groups {
                vstd::arithmetic::mul::lemma_mul_inequality(groups, g, c);
                vstd::arithmetic::mul::lemma_mul_is_commutative(c, groups);
            }
            lemma_segment_end(c, groups, g);
        }
        let ghost prior = r@;
        crossing_segment(ctx, r, a, b, base, chunk, long, n, rising);
        proof {
            assert forall|i: int| 0 <= i < base + chunk implies #[trigger] r@[i]
                == crossing_grouped_cell(long, rising, *ctx, a@, b@, n as int, i) by {
                if i >= base {
                    let k = i - base;
                    lemma_segment_place(c, g, k);
                    assert(r@[base + k] == r@[i]);
                    assert(segment_of(a@, c, i) == a@.subrange(base as int, base + chunk));
                    assert(segment_of(b@, c, i) == b@.subrange(base as int, base + chunk));
                } else {
                    assert(r@[i] == prior[i]);
                }
            }
            g = g + 1;
        }
        base += chunk;
    }
    Ok(())
}

/// Where the first series crosses the second from below: it is below at
/// the position before and at or above at the position itself. A position
/// at which either series misses a sample is no crossing. Where missing
/// values are skipped, the position before is the last one from the first
/// written position on at which both series held a sample.
pub fn ta_cross(ctx: &Context, r: &mut [bool], a: &[Option<i64>], b: &[Option<i64>]) -> (res: Result<(), Error>)
    ensures
        final(r)@.len() == old(r)@.len(),
        match res {
            Ok(()) => {
                &&& old(r)@.len() == a@.len()
                &&& old(r)@.len() == b@.len()
                &&& segments_fit(*ctx, a@.len() as int)
                &&& forall|i: int| 0 <= i < a@.len() ==> #[trigger] final(r)@[i] == cross_grouped_cell(true, *ctx, a@, b@, i)
            },
            Err(e) => {
                &&& final(r)@ == old(r)@
                &&& if old(r)@.len() != a@.len() || old(r)@.len() != b@.len() {
                    is_length_mismatch(e, old(r)@.len() as int, a@.len() as int)
                } else {
                    !segments_fit(*ctx, a@.len() as int) && is_ragged(e, *ctx, a@.len() as int)
                }
            },
        },
{
    proof {
        assert forall|i: int| 0 <= i < a@.len() implies crossing_grouped_cell(
            false,
            true,
            *ctx,
            a@,
            b@,
            0,
            i,
        ) == cross_grouped_cell(true, *ctx, a@, b@, i) by {}
    }
    crossing(ctx, r, a, b, false, 0, true)
}

/// Where the first series crosses the second from above: it is above at
/// the position before and at or below at the position itself. A position
/// at which either series misses a sample is no crossing. Where missing
/// values are skipped, the position before is the last one from the first
/// written position on at which both series held a sample.
pub fn ta_rcross(ctx: &Context, r: &mut [bool], a: &[Option<i64>], b: &[Option<i64>]) -> (res: Result<(), Error>)
    ensures
        final(r)@.len() == old(r)@.len(),
        match res {
            Ok(()) => {
                &&& old(r)@.len() == a@.len()
                &&& old(r)@.len() == b@.len()
                &&& segments_fit(*ctx, a@.len() as int)
                &&& forall|i: int| 0 <= i < a@.len() ==> #[trigger] final(r)@[i] == cross_grouped_cell(false, *ctx, a@, b@, i)
            },
            Err(e) => {
                &&& final(r)@ == old(r)@
                &&& if old(r)@.len() != a@.len() || old(r)@.len() != b@.len() {
                    is_length_mismatch(e, old(r)@.len() as int, a@.len() as int)
                } else {
                    !segments_fit(*ctx, a@.len() as int) && is_ragged(e, *ctx, a@.len() as int)
                }
            },
        },
{
    proof {
        assert forall|i: int| 0 <= i < a@.len() implies crossing_grouped_cell(
            false,
            false,
            *ctx,
            a@,
            b@,
            0,
            i,
        ) == cross_grouped_cell(false, *ctx, a@, b@, i) by {}
    }
    crossing(ctx, r, a, b, false, 0, false)
}

/// Where the first series comes to or above the second after it was below
/// it at each of the `n` positions before. Where missing values are
/// skipped, the positions before are those from the first written position
/// on at which both series held a sample.
pub fn ta_longcross(ctx: &Context, r: &mut [bool], a: &[Option<i64>], b: &[Option<i64>], n: usize) -> (res: Result<(), Error>)
    ensures
        final(r)@.len() == old(r)@.len(),
        match res {
            Ok(()) => {
                &&& old(r)@.len() == a@.len()
                &&& old(r)@.len() == b@.len()
                &&& segments_fit(*ctx, a@.len() as int)
                &&& forall|i: int| 0 <= i < a@.len() ==> #[trigger] final(r)@[i] == long_grouped_cell(true, *ctx, a@, b@, n as int, i)
            },
            Err(e) => {
                &&& final(r)@ == old(r)@
                &&& if old(r)@.len() != a@.len() || old(r)@.len() != b@.len() {
                    is_length_mismatch(e, old(r)@.len() as int, a@.len() as int)
                } else {
                    !segments_fit(*ctx, a@.len() as int) && is_ragged(e, *ctx, a@.len() as int)
                }
            },
        },
{
    proof {
        assert forall|i: int| 0 <= i < a@.len() implies crossing_grouped_cell(
            true,
            true,
            *ctx,
            a@,
            b@,
            n as int,
            i,
        ) == long_grouped_cell(true, *ctx, a@, b@, n as int, i) by {}
    }
    crossing(ctx, r, a, b, true, n, true)
}

/// Where the first series comes to or below the second after it was above
/// it at each of the `n` positions before. Where missing values are
/// skipped, the positions before are those from the first written position
/// on at which both series held a sample.
pub fn ta_rlongcross(ctx: &Context, r: &mut [bool], a: &[Option<i64>], b: &[Option<i64>], n: usize) -> (res: Result<(), Error>)
    ensures
        final(r)@.len() == old(r)@.len(),
        match res {
            Ok(()) => {
                &&& old(r)@.len() == a@.len()
                &&& old(r)@.len() == b@.len()
                &&& segments_fit(*ctx, a@.len() as int)
                &&& forall|i: int| 0 <= i < a@.len() ==> #[trigger] final(r)@[i] == long_grouped_cell(false, *ctx, a@, b@, n as int, i)
            },
            Err(e) => {
                &&& final(r)@ == old(r)@
                &&& if old(r)@.len() != a@.len() || old(r)@.len() != b@.len() {
                    is_length_mismatch(e, old(r)@.len() as int, a@.len() as int)
                } else {
                    !segments_fit(*ctx, a@.len() as int) && is_ragged(e, *ctx, a@.len() as int)
                }
            },
        },
{
    proof {
        assert forall|i: int| 0 <= i < a@.len() implies crossing_grouped_cell(
            true,
            false,
            *ctx,
            a@,
            b@,
            n as int,
            i,
        ) == long_grouped_cell(false, *ctx, a@, b@, n as int, i) by {}
    }
    crossing(ctx, r, a, b, true, n, false)
}

} // verus!
