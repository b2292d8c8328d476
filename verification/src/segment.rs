//! How a series is cut into segments, and the checks that come before any
//! operator runs.

use vstd::prelude::*;
use vstd::arithmetic::div_mod::lemma_fundamental_div_mod;
use vstd::arithmetic::div_mod::lemma_fundamental_div_mod_converse;
use vstd::arithmetic::mul::lemma_mul_inequality;
use vstd::arithmetic::mul::lemma_mul_is_commutative;
use vstd::arithmetic::mul::lemma_mul_is_distributive_add_other_way;
use crate::context::Context;
use crate::error::Error;
use crate::error::period_text;

verus! {

/// Whether a series of `len` samples is made of whole segments.
pub open spec fn segments_fit(ctx: Context, len: int) -> bool {
    len == ctx.spec_chunk_size(len) * ctx.spec_groups()
}

/// The segment that position `i` lies in, of a series cut into segments of
/// `c` samples.
pub open spec fn segment_of<T>(v: Seq<T>, c: int, i: int) -> Seq<T> {
    v.subrange((i / c) * c, (i / c) * c + c)
}

/// Whether `e` reports that a length was `found` where `wanted` was due.
pub open spec fn is_length_mismatch(e: Error, found: int, wanted: int) -> bool {
    e matches Error::LengthMismatch(a, b) && a == found && b == wanted
}

/// Whether `e` reports a window size of zero.
pub open spec fn is_invalid_period(e: Error) -> bool {
    e matches Error::InvalidPeriod(s) && s@ == period_text()
}

/// Whether `e` is the refusal of a series that is not made of whole segments.
pub open spec fn is_ragged(e: Error, ctx: Context, len: int) -> bool {
    is_length_mismatch(e, len, ctx.spec_chunk_size(len) * ctx.spec_groups())
}

/// The length of one segment of a series of `len` samples, or the error for
/// a series that is not made of whole segments.
pub fn check_shape(ctx: &Context, len: usize) -> (res: Result<usize, Error>)
    ensures
        match res {
            Ok(c) => segments_fit(*ctx, len as int) && c == ctx.spec_chunk_size(len as int) && (len
                > 0 ==> c > 0),
            Err(e) => !segments_fit(*ctx, len as int) && is_ragged(e, *ctx, len as int),
        },
{
    let groups = ctx.groups();
    let chunk = len / groups;
    proof {
        lemma_fundamental_div_mod(len as int, groups as int);
        lemma_mul_is_commutative(groups as int, chunk as int);
    }
    let whole = chunk * groups;
    assert(chunk == 0 ==> chunk * groups == 0) by (nonlinear_arith);
    if whole != len {
        Err(Error::LengthMismatch(len, whole))
    } else {
        Ok(chunk)
    }
}

/// Position `base + k` of a series lies in the segment that begins at
/// `base`, at place `k`.
pub proof fn lemma_segment_place(c: int, g: int, k: int)
    requires
        0 <= g,
        0 <= k < c,
    ensures
        (g * c + k) / c == g,
        (g * c + k) % c == k,
{
    lemma_fundamental_div_mod_converse(g * c + k, c, g, k);
}

/// The segments before the last one end inside the series.
pub proof fn lemma_segment_end(c: int, groups: int, g: int)
    requires
        0 <= g < groups,
        0 <= c,
    ensures
        g * c + c <= c * groups,
        (g + 1) * c == g * c + c,
{
    lemma_mul_is_distributive_add_other_way(c, g, 1);
    lemma_mul_inequality(g + 1, groups, c);
    lemma_mul_is_commutative(c, groups);
}

/// Where a series of values, each of which may be missing, holds a value.
pub open spec fn present<T>(v: Seq<Option<T>>) -> Seq<bool> {
    Seq::new(v.len(), |i: int| v[i].is_some())
}

/// For each position, whether the series holds a value there.
pub fn presence<T>(input: &[Option<T>]) -> (v: Vec<bool>)
    ensures
        v@ == present(input@),
{
    let n = input.len();
    let mut v: Vec<bool> = Vec::new();
    let mut i: usize = 0;
    while i < n
        invariant
            n == input@.len(),
            i <= n,
            v@.len() == i,
            forall|j: int| 0 <= j < i ==> v@[j] == input@[j].is_some(),
        decreases n - i,
    {
        v.push(input[i].is_some());
        i += 1;
    }
    assert(v@ =~= present(input@));
    v
}

/// A sequence of `n` cells without a value.
pub(crate) fn blank<T>(n: usize) -> (cells: Vec<Option<T>>)
    ensures
        cells@.len() == n,
        forall|i: int| 0 <= i < n ==> cells@[i].is_none(),
{
    let mut cells: Vec<Option<T>> = Vec::new();
    let mut i: usize = 0;
    while i < n
        invariant
            i <= n,
            cells@.len() == i,
            forall|j: int| 0 <= j < i ==> cells@[j].is_none(),
        decreases n - i,
    {
        cells.push(None);
        i += 1;
    }
    cells
}

} // verus!
