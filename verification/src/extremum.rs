//! The highest and the lowest value of a window, and how long ago it stood.
//!
//! A series is read here as a sequence of keys, one per position: `Some(k)`
//! where the position holds a number, with `k` an integer that orders the
//! numbers as the numbers themselves are ordered, and `None` where the value
//! is missing.

use std::collections::VecDeque;
use vstd::prelude::*;
use vstd::slice::slice_subrange;
use crate::context::Context;
use crate::error::Error;
use crate::rolling::Rule;
use crate::rolling::grouped_cell;
use crate::rolling::plan_grouped;
use crate::rolling::rolling_cell;
use crate::rolling::running_item;
use crate::rolling::span_start;
use crate::segment::blank;
use crate::segment::check_shape;
use crate::segment::is_length_mismatch;
use crate::segment::is_ragged;
use crate::segment::lemma_segment_end;
use crate::segment::lemma_segment_place;
use crate::segment::present;
use crate::segment::presence;
use crate::segment::segment_of;
use crate::segment::segments_fit;
use crate::skip_nan_window::Item;
use crate::skip_nan_window::count_true;
use crate::skip_nan_window::lemma_count_bounds;
use crate::skip_nan_window::lemma_count_none;
use crate::skip_nan_window::lemma_count_split;
use crate::skip_nan_window::lemma_skip_start_exists;
use crate::skip_nan_window::lemma_skip_start_monotone;
use crate::skip_nan_window::skip_start;
use crate::sum::sum_rule;

verus! {

/// Whether the key `a` is at least as extreme as the key `b`.
pub open spec fn dominates(highest: bool, a: i64, b: i64) -> bool {
    if highest { a >= b } else { a <= b }
}

/// Whether `j` is where the extreme of the samples at `lo..=hi` stands: no
/// sample there is more extreme, and none after `j` is as extreme.
pub open spec fn is_extreme(highest: bool, v: Seq<Option<i64>>, lo: int, hi: int, j: int) -> bool {
    &&& lo <= j <= hi
    &&& v[j].is_some()
    &&& forall|k: int|
        lo <= k <= hi && (#[trigger] v[k]).is_some() ==> dominates(
            highest,
            v[j].unwrap(),
            v[k].unwrap(),
        )
    &&& forall|k: int| j < k <= hi && (#[trigger] v[k]).is_some() ==> v[k].unwrap() != v[j].unwrap()
}

/// Where the extreme of the samples at `lo..=hi` stands: of several
/// positions with the same extreme value, the newest.
pub open spec fn extreme_at(highest: bool, v: Seq<Option<i64>>, lo: int, hi: int) -> int {
    choose|j: int| is_extreme(highest, v, lo, hi, j)
}

/// There is one place at most where the extreme of a window stands.
pub proof fn lemma_extreme_unique(highest: bool, v: Seq<Option<i64>>, lo: int, hi: int, j: int)
    requires
        is_extreme(highest, v, lo, hi, j),
    ensures
        extreme_at(highest, v, lo, hi) == j,
{
    let k = extreme_at(highest, v, lo, hi);
    assert(is_extreme(highest, v, lo, hi, k));
    if k < j {
        assert(v[j].is_some());
    } else if j < k {
        assert(v[k].is_some());
    }
}

/// A window that holds a sample has an extreme: a place where it stands exists.
pub proof fn lemma_extreme_exists(highest: bool, v: Seq<Option<i64>>, lo: int, hi: int)
    requires
        0 <= lo <= hi < v.len(),
        count_true(present(v), lo, hi + 1) >= 1,
    ensures
        is_extreme(highest, v, lo, hi, extreme_at(highest, v, lo, hi)),
    decreases hi - lo,
{
    let m = present(v);
    assert(count_true(m, lo, hi + 1) == count_true(m, lo, hi) + if m[hi] { 1int } else { 0int });
    lemma_count_bounds(m, lo, hi);
    if count_true(m, lo, hi) >= 1 {
        lemma_extreme_exists(highest, v, lo, hi - 1);
        let j = extreme_at(highest, v, lo, hi - 1);
        if v[hi].is_some() && dominates(highest, v[hi].unwrap(), v[j].unwrap()) {
            assert(is_extreme(highest, v, lo, hi, hi));
        } else {
            assert(is_extreme(highest, v, lo, hi, j));
        }
    } else {
        lemma_count_none(m, lo, hi);
        assert forall|k: int| lo <= k < hi implies (#[trigger] v[k]).is_none() by {
            assert(!m[k]);
        }
        assert(is_extreme(highest, v, lo, hi, hi));
    }
}

/// The window whose extreme is written at position `i` of one segment, of
/// which `m` says where it holds samples; nothing where no extreme is written.
///
/// A window of `periods` samples is the one that a sum would take. The
/// window that runs from the first written position has an extreme as soon
/// as it holds a sample; unless missing values are skipped, it has none once
/// it holds a missing value.
pub open spec fn extremum_window(
    skip: bool,
    strict: bool,
    m: Seq<bool>,
    periods: int,
    s: int,
    i: int,
) -> Option<Item> {
    if periods != 0 {
        rolling_cell(sum_rule(), skip, strict, m, periods, s, i)
    } else if i < s || i >= m.len() {
        None
    } else {
        let item = running_item(m, s, i);
        if skip {
            if item.no_nan_count >= 1 { Some(item) } else { None }
        } else {
            if item.spec_has_nan() { None } else { Some(item) }
        }
    }
}

/// The place, within one segment `v`, of the extreme that is written at
/// position `i`.
pub open spec fn extremum_cell(
    highest: bool,
    skip: bool,
    strict: bool,
    v: Seq<Option<i64>>,
    periods: int,
    s: int,
    i: int,
) -> Option<usize> {
    match extremum_window(skip, strict, present(v), periods, s, i) {
        Some(item) => Some(extreme_at(highest, v, item.start as int, item.end as int) as usize),
        None => None,
    }
}

/// The place, within its segment, of the extreme that is written at
/// position `i` of a whole series.
pub open spec fn extremum_grouped_cell(
    highest: bool,
    ctx: Context,
    v: Seq<Option<i64>>,
    periods: int,
    i: int,
) -> Option<usize> {
    let c = ctx.spec_chunk_size(v.len() as int);
    extremum_cell(
        highest,
        ctx.spec_skip_nan(),
        ctx.spec_strictly_cycle(),
        segment_of(v, c, i),
        periods,
        ctx.spec_start(c),
        i % c,
    )
}

/// What the queue of candidates holds once the positions `lo..=hi` were
/// read: positions of samples, in rising order and each less extreme than
/// the one before; and for every sample of the window a candidate that is
/// no older and no less extreme.
#[verifier::opaque]
pub open spec fn queue_ok(highest: bool, v: Seq<Option<i64>>, d: Seq<usize>, lo: int, hi: int) -> bool {
    &&& forall|a: int| 0 <= a < d.len() ==> lo <= #[trigger] d[a] <= hi && v[d[a] as int].is_some()
    &&& forall|a: int, b: int|
        0 <= a < b < d.len() ==> #[trigger] d[a] < #[trigger] d[b] && !dominates(
            highest,
            v[d[b] as int].unwrap(),
            v[d[a] as int].unwrap(),
        )
    &&& forall|k: int|
        lo <= k <= hi && (#[trigger] v[k]).is_some() ==> covered(highest, v, d, k)
}

/// Whether the queue holds a candidate that is no older than the sample at
/// `k` and no less extreme.
pub open spec fn covered(highest: bool, v: Seq<Option<i64>>, d: Seq<usize>, k: int) -> bool {
    exists|a: int|
        0 <= a < d.len() && #[trigger] d[a] >= k && dominates(
            highest,
            v[d[a] as int].unwrap(),
            v[k].unwrap(),
        )
}

/// Before anything was read the queue is empty.
proof fn lemma_queue_empty(highest: bool, v: Seq<Option<i64>>, lo: int)
    ensures
        queue_ok(highest, v, Seq::<usize>::empty(), lo, lo - 1),
{
    reveal(queue_ok);
}

/// Every candidate is the position of a sample of the window.
proof fn lemma_queue_entry(highest: bool, v: Seq<Option<i64>>, d: Seq<usize>, lo: int, hi: int, a: int)
    requires
        queue_ok(highest, v, d, lo, hi),
        0 <= a < d.len(),
    ensures
        lo <= d[a] <= hi,
        v[d[a] as int].is_some(),
{
    reveal(queue_ok);
}

/// A position without a sample leaves the queue as it is.
proof fn lemma_queue_idle(highest: bool, v: Seq<Option<i64>>, d: Seq<usize>, lo: int, hi: int)
    requires
        queue_ok(highest, v, d, lo, hi),
        v[hi + 1].is_none(),
    ensures
        queue_ok(highest, v, d, lo, hi + 1),
{
    reveal(queue_ok);
}

/// A sample that is in the window has a candidate, so the queue is not empty.
proof fn lemma_queue_holds(highest: bool, v: Seq<Option<i64>>, d: Seq<usize>, lo: int, hi: int, k: int)
    requires
        queue_ok(highest, v, d, lo, hi),
        lo <= k <= hi,
        v[k].is_some(),
    ensures
        d.len() > 0,
{
    reveal(queue_ok);
    assert(covered(highest, v, d, k));
}

/// The oldest candidate of the queue is where the extreme of the window stands.
proof fn lemma_front_is_extreme(highest: bool, v: Seq<Option<i64>>, d: Seq<usize>, lo: int, hi: int)
    requires
        queue_ok(highest, v, d, lo, hi),
        d.len() > 0,
    ensures
        is_extreme(highest, v, lo, hi, d[0] as int),
{
    reveal(queue_ok);
    let j = d[0] as int;
    assert forall|k: int| lo <= k <= hi && (#[trigger] v[k]).is_some() implies dominates(
        highest,
        v[j].unwrap(),
        v[k].unwrap(),
    ) by {
        assert(covered(highest, v, d, k));
        let a = choose|a: int|
            0 <= a < d.len() && #[trigger] d[a] >= k && dominates(
                highest,
                v[d[a] as int].unwrap(),
                v[k].unwrap(),
            );
        if a > 0 {
            assert(d[0] < d[a]);
        }
    }
    assert forall|k: int| j < k <= hi && (#[trigger] v[k]).is_some() implies v[k].unwrap()
        != v[j].unwrap() by {
        assert(covered(highest, v, d, k));
        let a = choose|a: int|
            0 <= a < d.len() && #[trigger] d[a] >= k && dominates(
                highest,
                v[d[a] as int].unwrap(),
                v[k].unwrap(),
            );
        assert(d[0] < d[a]);
    }
}

/// The queue after the sample at `i` has joined: the first `m` candidates
/// stay, the others were no more extreme than the sample and have left.
proof fn lemma_queue_push(
    highest: bool,
    v: Seq<Option<i64>>,
    d0: Seq<usize>,
    m: int,
    i: usize,
    lo: int,
)
    requires
        queue_ok(highest, v, d0, lo, i - 1),
        lo <= i,
        v[i as int].is_some(),
        0 <= m <= d0.len(),
        forall|a: int|
            m <= a < d0.len() ==> dominates(
                highest,
                v[i as int].unwrap(),
                v[#[trigger] d0[a] as int].unwrap(),
            ),
        m > 0 ==> !dominates(highest, v[i as int].unwrap(), v[d0[m - 1] as int].unwrap()),
    ensures
        queue_ok(highest, v, d0.subrange(0, m).push(i), lo, i as int),
{
    reveal(queue_ok);
    let d = d0.subrange(0, m).push(i);
    assert(d.len() == m + 1);
    assert(d[m] == i);
    assert forall|a: int| 0 <= a < d.len() implies lo <= #[trigger] d[a] <= i && v[d[a] as int].is_some() by {
        if a < m {
            assert(d[a] == d0[a]);
        }
    }
    assert forall|a: int, b: int| 0 <= a < b < d.len() implies #[trigger] d[a] < #[trigger] d[b]
        && !dominates(highest, v[d[b] as int].unwrap(), v[d[a] as int].unwrap()) by {
        assert(d[a] == d0[a]);
        if b < m {
            assert(d[b] == d0[b]);
        } else {
            if a < m - 1 {
                assert(d0[a] < d0[m - 1]);
            }
        }
    }
    assert forall|k: int| lo <= k <= i && (#[trigger] v[k]).is_some() implies covered(
        highest,
        v,
        d,
        k,
    ) by {
        if k == i {
            assert(d[m] >= k);
        } else {
            assert(covered(highest, v, d0, k));
            let a = choose|a: int|
                0 <= a < d0.len() && #[trigger] d0[a] >= k && dominates(
                    highest,
                    v[d0[a] as int].unwrap(),
                    v[k].unwrap(),
                );
            if a < m {
                assert(d[a] == d0[a]);
            } else {
                assert(d[m] >= k);
            }
        }
    }
}

/// The queue after the candidates before `bound` have left: they were the
/// first `off` of it.
proof fn lemma_queue_drop(
    highest: bool,
    v: Seq<Option<i64>>,
    d0: Seq<usize>,
    off: int,
    bound: int,
    lo: int,
    hi: int,
)
    requires
        queue_ok(highest, v, d0, lo, hi),
        lo <= bound,
        0 <= off <= d0.len(),
        forall|a: int| 0 <= a < off ==> #[trigger] d0[a] < bound,
        off < d0.len() ==> d0[off] >= bound,
    ensures
        queue_ok(highest, v, d0.subrange(off, d0.len() as int), bound, hi),
{
    reveal(queue_ok);
    let d = d0.subrange(off, d0.len() as int);
    assert forall|a: int| 0 <= a < d.len() implies bound <= #[trigger] d[a] <= hi && v[d[a] as int].is_some() by {
        assert(d[a] == d0[a + off]);
        if a > 0 {
            assert(d0[off] < d0[a + off]);
        }
    }
    assert forall|a: int, b: int| 0 <= a < b < d.len() implies #[trigger] d[a] < #[trigger] d[b]
        && !dominates(highest, v[d[b] as int].unwrap(), v[d[a] as int].unwrap()) by {
        assert(d[a] == d0[a + off]);
        assert(d[b] == d0[b + off]);
    }
    assert forall|k: int| bound <= k <= hi && (#[trigger] v[k]).is_some() implies covered(
        highest,
        v,
        d,
        k,
    ) by {
        assert(covered(highest, v, d0, k));
        let a = choose|a: int|
            0 <= a < d0.len() && #[trigger] d0[a] >= k && dominates(
                highest,
                v[d0[a] as int].unwrap(),
                v[k].unwrap(),
            );
        assert(a >= off);
        assert(d[a - off] == d0[a]);
    }
}

/// Whether the key `a` is at least as extreme as the key `b`.
fn beats(highest: bool, a: i64, b: i64) -> (r: bool)
    ensures
        r == dominates(highest, a, b),
{
    if highest {
        a >= b
    } else {
        a <= b
    }
}

/// Takes the sample at position `i` into the queue: the candidates that it
/// makes useless leave at the back, then it joins.
fn push_sample(
    queue: &mut VecDeque<usize>,
    seg: &[Option<i64>],
    i: usize,
    highest: bool,
    Ghost(lo): Ghost<int>,
)
    requires
        queue_ok(highest, seg@, old(queue)@, lo, i - 1),
        lo <= i < seg@.len(),
        seg@[i as int].is_some(),
    ensures
        queue_ok(highest, seg@, final(queue)@, lo, i as int),
{
    let ghost v = seg@;
    let ghost d0 = queue@;
    let fresh: i64 = seg[i].unwrap();
    loop
        invariant
            v == seg@,
            i < v.len(),
            v[i as int] == Some(fresh),
            queue@.len() <= d0.len(),
            queue@ == d0.subrange(0, queue@.len() as int),
            queue_ok(highest, v, d0, lo, i - 1),
            forall|a: int|
                queue@.len() <= a < d0.len() ==> dominates(
                    highest,
                    fresh,
                    v[#[trigger] d0[a] as int].unwrap(),
                ),
        ensures
            queue@.len() > 0 ==> !dominates(
                highest,
                fresh,
                v[d0[queue@.len() - 1] as int].unwrap(),
            ),
        decreases queue@.len(),
    {
        if queue.len() == 0 {
            break ;
        }
        let back: usize = queue[queue.len() - 1];
        proof {
            assert(back == d0[queue@.len() - 1]);
            lemma_queue_entry(highest, v, d0, lo, i - 1, queue@.len() - 1);
        }
        if !beats(highest, fresh, seg[back].unwrap()) {
            break ;
        }
        let _ = queue.pop_back();
    }
    proof {
        lemma_queue_push(highest, v, d0, queue@.len() as int, i, lo);
    }
    queue.push_back(i);
}

/// Lets the candidates that stand before `bound` leave at the front.
fn drop_before(
    queue: &mut VecDeque<usize>,
    bound: usize,
    Ghost(highest): Ghost<bool>,
    Ghost(v): Ghost<Seq<Option<i64>>>,
    Ghost(lo): Ghost<int>,
    Ghost(hi): Ghost<int>,
)
    requires
        queue_ok(highest, v, old(queue)@, lo, hi),
        lo <= bound,
    ensures
        queue_ok(highest, v, final(queue)@, bound as int, hi),
{
    let ghost d0 = queue@;
    while queue.len() > 0 && queue[0] < bound
        invariant
            queue@.len() <= d0.len(),
            queue@ == d0.subrange(d0.len() - queue@.len(), d0.len() as int),
            forall|a: int| 0 <= a < d0.len() - queue@.len() ==> #[trigger] d0[a] < bound,
        decreases queue@.len(),
    {
        assert(queue@[0] == d0[d0.len() - queue@.len()]);
        let _ = queue.pop_front();
    }
    proof {
        if queue@.len() > 0 {
            assert(queue@[0] == d0[d0.len() - queue@.len()]);
        }
        lemma_queue_drop(highest, v, d0, d0.len() - queue@.len(), bound as int, lo, hi);
    }
}

/// Whether a written place lies at or before position `k` and holds a sample.
pub open spec fn located(v: Seq<Option<i64>>, k: int, cell: Option<usize>) -> bool {
    cell matches Some(j) ==> j <= k && v[j as int].is_some()
}

/// Where the window of a step begins, by either way of counting.
pub open spec fn window_lo(skip: bool, m: Seq<bool>, periods: int, s: int, i: int) -> int {
    if skip { skip_start(m, periods, s, i) } else { span_start(periods, i) }
}

/// Writes the places of the extremes of one segment, for the window that
/// runs from the first written position.
fn extremum_running_segment(
    highest: bool,
    ctx: &Context,
    r: &mut [Option<usize>],
    input: &[Option<i64>],
    base: usize,
    n: usize,
)
    requires
        base + n <= input@.len(),
        input@.len() == old(r)@.len(),
    ensures
        final(r)@.len() == old(r)@.len(),
        forall|k: int| 0 <= k < base || base + n <= k < old(r)@.len() ==> final(r)@[k] == old(r)@[k],
        forall|k: int|
            0 <= k < n ==> #[trigger] final(r)@[base + k] == extremum_cell(
                highest,
                ctx.spec_skip_nan(),
                ctx.spec_strictly_cycle(),
                input@.subrange(base as int, base + n),
                0,
                ctx.spec_start(n as int),
                k,
            ),
        forall|k: int|
            0 <= k < n ==> located(
                input@.subrange(base as int, base + n),
                k,
                #[trigger] final(r)@[base + k],
            ),
{
    let len = input.len();
    let seg = slice_subrange(input, base, base + n);
    let s = ctx.start(n);
    let skip = ctx.skip_nan();
    let strict = ctx.strictly_cycle();
    let ghost v = seg@;
    let ghost m = present(v);
    let ghost before = r@;
    let mut k: usize = 0;
    while k < n
        invariant
            k <= n,
            base + n <= len,
            len == r@.len(),
            r@.len() == before.len(),
            forall|j: int| 0 <= j < base || base + n <= j < r@.len() ==> r@[j] == before[j],
            forall|j: int| 0 <= j < k ==> #[trigger] r@[base + j] == None::<usize>,
        decreases n - k,
    {
        r[base + k] = None;
        k += 1;
    }
    if n == 0 {
        return ;
    }
    let mut best: usize = s;
    let mut count: usize = 0;
    let mut i: usize = s;
    while i < n
        invariant
            s <= i <= n,
            v == seg@,
            m == present(v),
            v.len() == n,
            base + n <= len,
            len == r@.len(),
            r@.len() == before.len(),
            count == count_true(m, s as int, i as int),
            count <= i - s,
            count >= 1 ==> is_extreme(highest, v, s as int, i - 1, best as int),
            count == 0 ==> forall|j: int| s <= j < i ==> (#[trigger] v[j]).is_none(),
            forall|j: int| 0 <= j < base || base + n <= j < r@.len() ==> r@[j] == before[j],
            forall|j: int| i <= j < n ==> #[trigger] r@[base + j] == None::<usize>,
            forall|j: int| 0 <= j < i ==> located(v, j, #[trigger] r@[base + j]),
            forall|j: int|
                0 <= j < i ==> #[trigger] r@[base + j] == extremum_cell(
                    highest,
                    skip,
                    strict,
                    v,
                    0,
                    s as int,
                    j,
                ),
        decreases n - i,
    {
        match seg[i] {
            Some(x) => {
                if count == 0 || beats(highest, x, seg[best].unwrap()) {
                    best = i;
                }
                count += 1;
            },
            None => {},
        }
        proof {
            if count >= 1 {
                assert(is_extreme(highest, v, s as int, i as int, best as int));
                lemma_extreme_unique(highest, v, s as int, i as int, best as int);
            }
        }
        let clean: bool = skip || count == i + 1 - s;
        if count >= 1 && clean {
            r[base + i] = Some(best);
        }
        i += 1;
    }
}

/// Writes the places of the extremes of one segment, for a window of
/// `periods` samples, from the windows that `plan` holds for it.
fn extremum_sliding_segment(
    highest: bool,
    ctx: &Context,
    r: &mut [Option<usize>],
    input: &[Option<i64>],
    plan: &[Option<Item>],
    base: usize,
    n: usize,
    periods: usize,
)
    requires
        periods != 0,
        base + n <= input@.len(),
        input@.len() == old(r)@.len(),
        input@.len() == plan@.len(),
        forall|k: int|
            0 <= k < n ==> #[trigger] plan@[base + k] == rolling_cell(
                sum_rule(),
                ctx.spec_skip_nan(),
                ctx.spec_strictly_cycle(),
                present(input@.subrange(base as int, base + n)),
                periods as int,
                ctx.spec_start(n as int),
                k,
            ),
    ensures
        final(r)@.len() == old(r)@.len(),
        forall|k: int| 0 <= k < base || base + n <= k < old(r)@.len() ==> final(r)@[k] == old(r)@[k],
        forall|k: int|
            0 <= k < n ==> #[trigger] final(r)@[base + k] == extremum_cell(
                highest,
                ctx.spec_skip_nan(),
                ctx.spec_strictly_cycle(),
                input@.subrange(base as int, base + n),
                periods as int,
                ctx.spec_start(n as int),
                k,
            ),
        forall|k: int|
            0 <= k < n ==> located(
                input@.subrange(base as int, base + n),
                k,
                #[trigger] final(r)@[base + k],
            ),
{
    let len = input.len();
    let seg = slice_subrange(input, base, base + n);
    let s = ctx.start(n);
    let skip = ctx.skip_nan();
    let strict = ctx.strictly_cycle();
    let ghost v = seg@;
    let ghost m = present(v);
    let ghost p = periods as int;
    let ghost before = r@;
    let mut k: usize = 0;
    while k < n
        invariant
            k <= n,
            base + n <= len,
            len == r@.len(),
            r@.len() == before.len(),
            forall|j: int| 0 <= j < base || base + n <= j < r@.len() ==> r@[j] == before[j],
            forall|j: int| 0 <= j < k ==> #[trigger] r@[base + j] == None::<usize>,
        decreases n - k,
    {
        r[base + k] = None;
        k += 1;
    }
    if n == 0 {
        return ;
    }
    let pre: usize = if skip {
        s
    } else if s + 1 > periods {
        s + 1 - periods
    } else {
        0
    };
    let mut queue: VecDeque<usize> = VecDeque::new();
    proof {
        lemma_queue_empty(highest, v, pre as int);
    }
    let ghost mut lo: int = pre as int;
    let ghost mut last: int = -1;
    let mut i: usize = pre;
    while i < n
        invariant
            pre <= i <= n,
            pre <= s < n,
            pre == if skip { s as int } else { span_start(p, s as int) },
            p == periods,
            p >= 1,
            v == seg@,
            m == present(v),
            v.len() == n,
            len == input@.len(),
            len == plan@.len(),
            base + n <= len,
            len == r@.len(),
            r@.len() == before.len(),
            skip == ctx.spec_skip_nan(),
            strict == ctx.spec_strictly_cycle(),
            s == ctx.spec_start(n as int),
            forall|k: int|
                0 <= k < n ==> #[trigger] plan@[base + k] == rolling_cell(
                    sum_rule(),
                    skip,
                    strict,
                    m,
                    p,
                    s as int,
                    k,
                ),
            pre <= lo <= i,
            queue_ok(highest, v, queue@, lo, i - 1),
            last < i,
            last < 0 ==> lo == pre,
            last >= 0 ==> s <= last && lo == window_lo(skip, m, p, s as int, last),
            forall|j: int| 0 <= j < base || base + n <= j < r@.len() ==> r@[j] == before[j],
            forall|j: int| i <= j < n ==> #[trigger] r@[base + j] == None::<usize>,
            forall|j: int| 0 <= j < i ==> located(v, j, #[trigger] r@[base + j]),
            forall|j: int|
                0 <= j < i ==> #[trigger] r@[base + j] == extremum_cell(
                    highest,
                    skip,
                    strict,
                    v,
                    p,
                    s as int,
                    j,
                ),
        decreases n - i,
    {
        if seg[i].is_some() {
            push_sample(&mut queue, seg, i, highest, Ghost(lo));
        } else {
            proof {
                lemma_queue_idle(highest, v, queue@, lo, i - 1);
            }
        }
        if i >= s {
            match plan[base + i] {
                Some(item) => {
                    proof {
                        assert(plan@[base + i] == rolling_cell(sum_rule(), skip, strict, m, p, s as int, i as int));
                        assert(m[i as int] == v[i as int].is_some());
                        if skip {
                            lemma_skip_start_exists(m, p, s as int, i as int);
                            let j = skip_start(m, p, s as int, i as int);
                            lemma_count_split(m, s as int, i as int, i + 1);
                            lemma_count_bounds(m, s as int, i as int);
                            lemma_count_bounds(m, j, i + 1);
                            if last >= 0 {
                                lemma_skip_start_exists(m, p, s as int, last);
                                lemma_skip_start_monotone(m, p, s as int, last, lo, i as int, j);
                            }
                        }
                        assert(item.start == window_lo(skip, m, p, s as int, i as int));
                        assert(lo <= item.start <= i);
                    }
                    drop_before(&mut queue, item.start, Ghost(highest), Ghost(v), Ghost(lo), Ghost(i as int));
                    proof {
                        lo = item.start as int;
                        last = i as int;
                        lemma_queue_holds(highest, v, queue@, lo, i as int, i as int);
                        lemma_front_is_extreme(highest, v, queue@, lo, i as int);
                        lemma_extreme_unique(highest, v, lo, i as int, queue@[0] as int);
                    }
                    let front: usize = queue[0];
                    r[base + i] = Some(front);
                },
                None => {},
            }
        }
        i += 1;
    }
}

/// For each position of a series of keys, the place within its segment of
/// the highest or the lowest sample of the window that ends there: of the
/// last `periods` samples, or, with `periods` zero, of all samples from the
/// first written position on. `None` is written where the window has no
/// extreme to show.
pub fn run_extremum(
    ctx: &Context,
    r: &mut [Option<usize>],
    input: &[Option<i64>],
    periods: usize,
    highest: bool,
) -> (res: Result<(), Error>)
    ensures
        final(r)@.len() == old(r)@.len(),
        match res {
            Ok(()) => {
                &&& old(r)@.len() == input@.len()
                &&& segments_fit(*ctx, input@.len() as int)
                &&& forall|i: int|
                    0 <= i < input@.len() ==> #[trigger] final(r)@[i] == extremum_grouped_cell(
                        highest,
                        *ctx,
                        input@,
                        periods as int,
                        i,
                    )
                &&& forall|i: int|
                    0 <= i < input@.len() ==> located(
                        segment_of(input@, ctx.spec_chunk_size(input@.len() as int), i),
                        i % ctx.spec_chunk_size(input@.len() as int),
                        #[trigger] final(r)@[i],
                    )
            },
            Err(e) => {
                &&& final(r)@ == old(r)@
                &&& if old(r)@.len() != input@.len() {
                    is_length_mismatch(e, old(r)@.len() as int, input@.len() as int)
                } else {
                    !segments_fit(*ctx, input@.len() as int) && is_ragged(e, *ctx, input@.len() as int)
                }
            },
        },
{
    if r.len() != input.len() {
        return Err(Error::LengthMismatch(r.len(), input.len()));
    }
    let len = input.len();
    let chunk = match check_shape(ctx, len) {
        Err(e) => { return Err(e); },
        Ok(chunk) => chunk,
    };
    if chunk == 0 {
        return Ok(());
    }
    let mut plan: Vec<Option<Item>> = blank(len);
    if periods != 0 {
        let mask = presence(input);
        let rule = Rule { least: 1, partial: true, exact: false, every: false };
        plan_grouped(&rule, ctx, plan.as_mut_slice(), mask.as_slice(), periods, chunk);
    }
    let ghost c = chunk as int;
    let ghost groups = ctx.spec_groups();
    let mut base: usize = 0;
    let ghost mut g: int = 0;
    while base < len
        invariant
            len == input@.len(),
            len == plan@.len(),
            r@.len() == len,
            c == chunk,
            c > 0,
            len == c * groups,
            groups == ctx.spec_groups(),
            c == ctx.spec_chunk_size(len as int),
            0 <= g <= groups,
            base == g * c,
            base <= len,
            periods != 0 ==> forall|i: int|
                0 <= i < len ==> #[trigger] plan@[i] == grouped_cell(
                    sum_rule(),
                    *ctx,
                    present(input@),
                    periods as int,
                    i,
                ),
            forall|i: int|
                0 <= i < base ==> #[trigger] r@[i] == extremum_grouped_cell(
                    highest,
                    *ctx,
                    input@,
                    periods as int,
                    i,
                ),
            forall|i: int| 0 <= i < base ==> located(segment_of(input@, c, i), i % c, #[trigger] r@[i]),
        decreases len - base,
    {
        proof {
            if g >= groups {
                vstd::arithmetic::mul::lemma_mul_inequality(groups, g, c);
                vstd::arithmetic::mul::lemma_mul_is_commutative(c, groups);
            }
            lemma_segment_end(c, groups, g);
        }
        let ghost prior = r@;
        let ghost seg = input@.subrange(base as int, base + chunk);
        if periods == 0 {
            extremum_running_segment(highest, ctx, r, input, base, chunk);
        } else {
            proof {
                assert forall|k: int| 0 <= k < chunk implies #[trigger] plan@[base + k]
                    == rolling_cell(
                    sum_rule(),
                    ctx.spec_skip_nan(),
                    ctx.spec_strictly_cycle(),
                    present(seg),
                    periods as int,
                    ctx.spec_start(chunk as int),
                    k,
                ) by {
                    lemma_segment_place(c, g, k);
                    assert(segment_of(present(input@), c, base + k) =~= present(seg));
                }
            }
            extremum_sliding_segment(highest, ctx, r, input, plan.as_slice(), base, chunk, periods);
        }
        proof {
            assert forall|i: int| 0 <= i < base + chunk implies #[trigger] r@[i]
                == extremum_grouped_cell(highest, *ctx, input@, periods as int, i) && located(
                segment_of(input@, c, i),
                i % c,
                r@[i],
            ) by {
                if i >= base {
                    let k = i - base;
                    lemma_segment_place(c, g, k);
                    assert(r@[base + k] == r@[i]);
                    assert(segment_of(input@, c, i) == seg);
                } else {
                    assert(r@[i] == prior[i]);
                }
            }
            g = g + 1;
        }
        base += chunk;
    }
    Ok(())
}

/// The extreme that is written at position `i` of a whole series of keys.
pub open spec fn extreme_value_cell(
    highest: bool,
    ctx: Context,
    v: Seq<Option<i64>>,
    periods: int,
    i: int,
) -> Option<i64> {
    match extremum_grouped_cell(highest, ctx, v, periods, i) {
        Some(j) => segment_of(v, ctx.spec_chunk_size(v.len() as int), i)[j as int],
        None => None,
    }
}

/// The number of positions between position `i` and the extreme that is
/// written there.
pub open spec fn extreme_bars_cell(
    highest: bool,
    ctx: Context,
    v: Seq<Option<i64>>,
    periods: int,
    i: int,
) -> Option<usize> {
    match extremum_grouped_cell(highest, ctx, v, periods, i) {
        Some(j) => Some((i % ctx.spec_chunk_size(v.len() as int) - j) as usize),
        None => None,
    }
}

/// Writes the extreme of each window.
fn extreme_values(
    ctx: &Context,
    r: &mut [Option<i64>],
    input: &[Option<i64>],
    periods: usize,
    highest: bool,
) -> (res: Result<(), Error>)
    ensures
        final(r)@.len() == old(r)@.len(),
        match res {
            Ok(()) => {
                &&& old(r)@.len() == input@.len()
                &&& segments_fit(*ctx, input@.len() as int)
                &&& forall|i: int|
                    0 <= i < input@.len() ==> #[trigger] final(r)@[i] == extreme_value_cell(
                        highest,
                        *ctx,
                        input@,
                        periods as int,
                        i,
                    )
            },
            Err(e) => {
                &&& final(r)@ == old(r)@
                &&& if old(r)@.len() != input@.len() {
                    is_length_mismatch(e, old(r)@.len() as int, input@.len() as int)
                } else {
                    !segments_fit(*ctx, input@.len() as int) && is_ragged(e, *ctx, input@.len() as int)
                }
            },
        },
{
    if r.len() != input.len() {
        return Err(Error::LengthMismatch(r.len(), input.len()));
    }
    let len = input.len();
    let mut places: Vec<Option<usize>> = blank(len);
    match run_extremum(ctx, places.as_mut_slice(), input, periods, highest) {
        Err(e) => { return Err(e); },
        Ok(()) => {},
    }
    let chunk = ctx.chunk_size(len);
    if chunk == 0 {
        return Ok(());
    }
    let ghost c = chunk as int;
    let ghost mut g: int = 0;
    let mut base: usize = 0;
    let mut k: usize = 0;
    let mut i: usize = 0;
    while i < len
        invariant
            len == input@.len(),
            len == r@.len(),
            len == places@.len(),
            c == chunk,
            c == ctx.spec_chunk_size(len as int),
            len == c * ctx.spec_groups(),
            0 <= g,
            0 <= k < c,
            base == g * c,
            i == base + k,
            i <= len,
            forall|j: int|
                0 <= j < len ==> #[trigger] places@[j] == extremum_grouped_cell(
                    highest,
                    *ctx,
                    input@,
                    periods as int,
                    j,
                ),
            forall|j: int| 0 <= j < len ==> located(segment_of(input@, c, j), j % c, #[trigger] places@[j]),
            forall|j: int|
                0 <= j < i ==> #[trigger] r@[j] == extreme_value_cell(
                    highest,
                    *ctx,
                    input@,
                    periods as int,
                    j,
                ),
        decreases len - i,
    {
        proof {
            lemma_segment_place(c, g, k as int);
            assert(located(segment_of(input@, c, i as int), (i as int) % c, places@[i as int]));
            let groups = ctx.spec_groups();
            if g >= groups {
                vstd::arithmetic::mul::lemma_mul_inequality(groups, g, c);
                vstd::arithmetic::mul::lemma_mul_is_commutative(c, groups);
            }
            lemma_segment_end(c, groups, g);
            assert(segment_of(input@, c, i as int) == input@.subrange(base as int, base + c));
        }
        match places[i] {
            Some(j) => {
                r[i] = input[base + j];
            },
            None => {
                r[i] = None;
            },
        }
        i += 1;
        k += 1;
        if k == chunk {
            k = 0;
            base = i;
            proof {
                assert((g + 1) * c == g * c + c) by (nonlinear_arith);
                g = g + 1;
            }
        }
    }
    Ok(())
}

/// Writes how far back the extreme of each window stands.
fn extreme_bars(
    ctx: &Context,
    r: &mut [Option<usize>],
    input: &[Option<i64>],
    periods: usize,
    highest: bool,
) -> (res: Result<(), Error>)
    ensures
        final(r)@.len() == old(r)@.len(),
        match res {
            Ok(()) => {
                &&& old(r)@.len() == input@.len()
                &&& segments_fit(*ctx, input@.len() as int)
                &&& forall|i: int|
                    0 <= i < input@.len() ==> #[trigger] final(r)@[i] == extreme_bars_cell(
                        highest,
                        *ctx,
                        input@,
                        periods as int,
                        i,
                    )
            },
            Err(e) => {
                &&& final(r)@ == old(r)@
                &&& if old(r)@.len() != input@.len() {
                    is_length_mismatch(e, old(r)@.len() as int, input@.len() as int)
                } else {
                    !segments_fit(*ctx, input@.len() as int) && is_ragged(e, *ctx, input@.len() as int)
                }
            },
        },
{
    match run_extremum(ctx, r, input, periods, highest) {
        Err(e) => { return Err(e); },
        Ok(()) => {},
    }
    let len = input.len();
    let chunk = ctx.chunk_size(len);
    if chunk == 0 {
        return Ok(());
    }
    let ghost places = r@;
    let ghost c = chunk as int;
    let ghost mut g: int = 0;
    let mut k: usize = 0;
    let mut i: usize = 0;
    while i < len
        invariant
            len == input@.len(),
            len == r@.len(),
            len == places.len(),
            c == chunk,
            c == ctx.spec_chunk_size(len as int),
            0 <= g,
            0 <= k < c,
            i == g * c + k,
            i <= len,
            forall|j: int|
                0 <= j < len ==> #[trigger] places[j] == extremum_grouped_cell(
                    highest,
                    *ctx,
                    input@,
                    periods as int,
                    j,
                ),
            forall|j: int| 0 <= j < len ==> located(segment_of(input@, c, j), j % c, #[trigger] places[j]),
            forall|j: int| i <= j < len ==> r@[j] == places[j],
            forall|j: int|
                0 <= j < i ==> #[trigger] r@[j] == extreme_bars_cell(
                    highest,
                    *ctx,
                    input@,
                    periods as int,
                    j,
                ),
        decreases len - i,
    {
        proof {
            lemma_segment_place(c, g, k as int);
            assert(located(segment_of(input@, c, i as int), (i as int) % c, places[i as int]));
        }
        match r[i] {
            Some(j) => {
                r[i] = Some(k - j);
            },
            None => {},
        }
        i += 1;
        k += 1;
        if k == chunk {
            k = 0;
            proof {
                assert((g + 1) * c == g * c + c) by (nonlinear_arith);
                g = g + 1;
            }
        }
    }
    Ok(())
}

/// The highest of the last `periods` samples; with `periods` zero, of all
/// samples from the first written position on.
///
/// `input[i]` is the key of the sample at position `i`, or `None`. `r[i]`
/// comes out as the key of the extreme, or as `None` where there is no value.
pub fn ta_hhv(ctx: &Context, r: &mut [Option<i64>], input: &[Option<i64>], periods: usize) -> (res: Result<(), Error>)
    ensures
        final(r)@.len() == old(r)@.len(),
        match res {
            Ok(()) => {
                &&& old(r)@.len() == input@.len()
                &&& segments_fit(*ctx, input@.len() as int)
                &&& forall|i: int|
                    0 <= i < input@.len() ==> #[trigger] final(r)@[i] == extreme_value_cell(
                        true,
                        *ctx,
                        input@,
                        periods as int,
                        i,
                    )
            },
            Err(e) => {
                &&& final(r)@ == old(r)@
                &&& if old(r)@.len() != input@.len() {
                    is_length_mismatch(e, old(r)@.len() as int, input@.len() as int)
                } else {
                    !segments_fit(*ctx, input@.len() as int) && is_ragged(e, *ctx, input@.len() as int)
                }
            },
        },
{
    extreme_values(ctx, r, input, periods, true)
}

/// The lowest of the last `periods` samples; with `periods` zero, of all
/// samples from the first written position on.
///
/// `input[i]` is the key of the sample at position `i`, or `None`. `r[i]`
/// comes out as the key of the extreme, or as `None` where there is no value.
pub fn ta_llv(ctx: &Context, r: &mut [Option<i64>], input: &[Option<i64>], periods: usize) -> (res: Result<(), Error>)
    ensures
        final(r)@.len() == old(r)@.len(),
        match res {
            Ok(()) => {
                &&& old(r)@.len() == input@.len()
                &&& segments_fit(*ctx, input@.len() as int)
                &&& forall|i: int|
                    0 <= i < input@.len() ==> #[trigger] final(r)@[i] == extreme_value_cell(
                        false,
                        *ctx,
                        input@,
                        periods as int,
                        i,
                    )
            },
            Err(e) => {
                &&& final(r)@ == old(r)@
                &&& if old(r)@.len() != input@.len() {
                    is_length_mismatch(e, old(r)@.len() as int, input@.len() as int)
                } else {
                    !segments_fit(*ctx, input@.len() as int) && is_ragged(e, *ctx, input@.len() as int)
                }
            },
        },
{
    extreme_values(ctx, r, input, periods, false)
}

/// The number of positions since the highest of the last `periods` samples
/// stood; with `periods` zero, of all samples from the first written
/// position on. `None` is written where there is no value.
pub fn ta_hhvbars(ctx: &Context, r: &mut [Option<usize>], input: &[Option<i64>], periods: usize) -> (res: Result<(), Error>)
    ensures
        final(r)@.len() == old(r)@.len(),
        match res {
            Ok(()) => {
                &&& old(r)@.len() == input@.len()
                &&& segments_fit(*ctx, input@.len() as int)
                &&& forall|i: int|
                    0 <= i < input@.len() ==> #[trigger] final(r)@[i] == extreme_bars_cell(
                        true,
                        *ctx,
                        input@,
                        periods as int,
                        i,
                    )
            },
            Err(e) => {
                &&& final(r)@ == old(r)@
                &&& if old(r)@.len() != input@.len() {
                    is_length_mismatch(e, old(r)@.len() as int, input@.len() as int)
                } else {
                    !segments_fit(*ctx, input@.len() as int) && is_ragged(e, *ctx, input@.len() as int)
                }
            },
        },
{
    extreme_bars(ctx, r, input, periods, true)
}

/// The number of positions since the lowest of the last `periods` samples
/// stood; with `periods` zero, of all samples from the first written
/// position on. `None` is written where there is no value.
pub fn ta_llvbars(ctx: &Context, r: &mut [Option<usize>], input: &[Option<i64>], periods: usize) -> (res: Result<(), Error>)
    ensures
        final(r)@.len() == old(r)@.len(),
        match res {
            Ok(()) => {
                &&& old(r)@.len() == input@.len()
                &&& segments_fit(*ctx, input@.len() as int)
                &&& forall|i: int|
                    0 <= i < input@.len() ==> #[trigger] final(r)@[i] == extreme_bars_cell(
                        false,
                        *ctx,
                        input@,
                        periods as int,
                        i,
                    )
            },
            Err(e) => {
                &&& final(r)@ == old(r)@
                &&& if old(r)@.len() != input@.len() {
                    is_length_mismatch(e, old(r)@.len() as int, input@.len() as int)
                } else {
                    !segments_fit(*ctx, input@.len() as int) && is_ragged(e, *ctx, input@.len() as int)
                }
            },
        },
{
    extreme_bars(ctx, r, input, periods, false)
}

} // verus!
