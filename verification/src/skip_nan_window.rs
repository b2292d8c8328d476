//! Windows over a series in which samples may be missing.
//!
//! A series is read here as a sequence of flags, one per position: `true`
//! where the position holds a number, `false` where the value is missing.

use vstd::prelude::*;

verus! {

/// The number of present samples at the positions `lo..hi`.
pub open spec fn count_true(v: Seq<bool>, lo: int, hi: int) -> int
    decreases hi - lo,
{
    if hi <= lo {
        0
    } else {
        count_true(v, lo, hi - 1) + if v[hi - 1] { 1int } else { 0int }
    }
}

/// A count is not negative, and no greater than the number of positions
/// counted over.
pub proof fn lemma_count_bounds(v: Seq<bool>, lo: int, hi: int)
    ensures
        0 <= count_true(v, lo, hi),
        lo <= hi ==> count_true(v, lo, hi) <= hi - lo,
    decreases hi - lo,
{
    if hi > lo {
        lemma_count_bounds(v, lo, hi - 1);
    }
}

/// A range counted in two parts holds the sum of the two counts.
pub proof fn lemma_count_split(v: Seq<bool>, lo: int, mid: int, hi: int)
    requires
        lo <= mid <= hi,
    ensures
        count_true(v, lo, hi) == count_true(v, lo, mid) + count_true(v, mid, hi),
    decreases hi - mid,
{
    if hi > mid {
        lemma_count_split(v, lo, mid, hi - 1);
    }
}

/// A range holds what it holds after its first position, and the sample of
/// that position if there is one.
pub proof fn lemma_count_first(v: Seq<bool>, lo: int, hi: int)
    requires
        lo < hi,
    ensures
        count_true(v, lo, hi) == count_true(v, lo + 1, hi) + if v[lo] { 1int } else { 0int },
{
    lemma_count_split(v, lo, lo + 1, hi);
    assert(count_true(v, lo, lo + 1) == count_true(v, lo, lo) + if v[lo] { 1int } else { 0int });
}

/// A range holds as many present samples as it has positions exactly when
/// none of its samples is missing.
pub proof fn lemma_count_full(v: Seq<bool>, lo: int, hi: int)
    requires
        lo <= hi,
    ensures
        count_true(v, lo, hi) == hi - lo <==> (forall|k: int| lo <= k < hi ==> v[k]),
    decreases hi - lo,
{
    if hi > lo {
        lemma_count_full(v, lo, hi - 1);
        lemma_count_bounds(v, lo, hi - 1);
        if count_true(v, lo, hi) == hi - lo {
            assert forall|k: int| lo <= k < hi implies v[k] by {
                if k < hi - 1 {
                }
            }
        }
    }
}

/// A range holds no present sample exactly when each of its samples is
/// missing.
pub proof fn lemma_count_none(v: Seq<bool>, lo: int, hi: int)
    requires
        lo <= hi,
    ensures
        count_true(v, lo, hi) == 0 <==> (forall|k: int| lo <= k < hi ==> !v[k]),
    decreases hi - lo,
{
    if hi > lo {
        lemma_count_none(v, lo, hi - 1);
        lemma_count_bounds(v, lo, hi - 1);
        if count_true(v, lo, hi) == 0 {
            assert forall|k: int| lo <= k < hi implies !v[k] by {
                if k < hi - 1 {
                }
            }
        }
    }
}

/// A window as one step of a scan sees it.
#[derive(Debug, Clone, Copy, PartialEq, Eq, Structural)]
pub struct Item {
    /// The oldest position still inside the window. Where the window holds
    /// a sample at all, this position holds one.
    pub start: usize,
    /// `start` as it was one step earlier: the samples that left the window
    /// in this step are those at `prev_start..start`.
    pub prev_start: usize,
    /// The position of the step itself.
    pub end: usize,
    /// The number of present samples at `start..=end`.
    pub no_nan_count: usize,
}

impl Item {
    /// The window with the given bounds and count.
    pub fn new(start: usize, prev_start: usize, end: usize, no_nan_count: usize) -> (item: Self)
        ensures
            item == (Item { start, prev_start, end, no_nan_count }),
    {
        Item { start, prev_start, end, no_nan_count }
    }

    /// The number of positions from `start` to `end`, both included.
    pub open spec fn span(&self) -> int {
        self.end - self.start + 1
    }

    /// Whether some position of the window holds no sample.
    pub open spec fn spec_has_nan(&self) -> bool {
        self.no_nan_count != self.span()
    }

    /// Whether the window holds `periods` samples at `periods` positions.
    pub open spec fn is_full(&self, periods: int) -> bool {
        self.no_nan_count == periods && self.span() == periods
    }

    /// Whether some position from `start` to `end` holds no sample.
    pub fn has_nan(&self) -> (r: bool)
        ensures
            r == self.spec_has_nan(),
    {
        let held: u128 = self.no_nan_count as u128 + self.start as u128;
        let wanted: u128 = self.end as u128 + 1;
        held != wanted
    }
}

impl Default for Item {
    fn default() -> (item: Self)
        ensures
            item == (Item { start: 0, prev_start: 0, end: 0, no_nan_count: 0 }),
    {
        Item { start: 0, prev_start: 0, end: 0, no_nan_count: 0 }
    }
}

/// The number of samples in the window of width `w` after the step at
/// position `i` of a scan that began at `s`: the samples seen so far, but
/// never more than `w`.
pub open spec fn skip_count(v: Seq<bool>, w: int, s: int, i: int) -> int {
    let seen = count_true(v, s, i + 1);
    if seen < w { seen } else { w }
}

/// Whether `j` is where that window begins: the window holds exactly the
/// samples it should, and begins at a sample unless it is empty.
pub open spec fn is_skip_start(v: Seq<bool>, w: int, s: int, i: int, j: int) -> bool {
    &&& s <= j <= i + 1
    &&& count_true(v, j, i + 1) == skip_count(v, w, s, i)
    &&& (j <= i ==> v[j])
}

/// Where the window of width `w` begins after the step at position `i`.
pub open spec fn skip_start(v: Seq<bool>, w: int, s: int, i: int) -> int {
    choose|j: int| is_skip_start(v, w, s, i, j)
}

/// The window of width `w` after the step at `i` of a scan that began at `s`.
pub open spec fn skip_item(v: Seq<bool>, w: int, s: int, i: int) -> Item {
    Item {
        start: skip_start(v, w, s, i) as usize,
        prev_start: (if i <= s { s } else { skip_start(v, w, s, i - 1) }) as usize,
        end: i as usize,
        no_nan_count: skip_count(v, w, s, i) as usize,
    }
}

/// There is one place at most where a window can begin.
pub proof fn lemma_skip_start_unique(v: Seq<bool>, w: int, s: int, i: int, j: int)
    requires
        is_skip_start(v, w, s, i, j),
    ensures
        skip_start(v, w, s, i) == j,
{
    let k = skip_start(v, w, s, i);
    assert(is_skip_start(v, w, s, i, k));
    if k < j {
        lemma_count_split(v, k, j, i + 1);
        lemma_count_first(v, k, j);
        lemma_count_bounds(v, k + 1, j);
    } else if j < k {
        lemma_count_split(v, j, k, i + 1);
        lemma_count_first(v, j, k);
        lemma_count_bounds(v, j + 1, k);
    }
}

/// The first position at or after `j`, and before `hi`, that holds a sample;
/// `hi` where there is none.
pub open spec fn next_true(v: Seq<bool>, j: int, hi: int) -> int
    decreases hi - j,
{
    if j >= hi {
        hi
    } else if v[j] {
        j
    } else {
        next_true(v, j + 1, hi)
    }
}

/// The first position that holds a sample lies in its range, holds one
/// unless it is the end of the range, and no position before it holds one.
pub proof fn lemma_next_true(v: Seq<bool>, j: int, hi: int)
    requires
        j <= hi,
    ensures
        j <= next_true(v, j, hi) <= hi,
        count_true(v, j, next_true(v, j, hi)) == 0,
        next_true(v, j, hi) < hi ==> v[next_true(v, j, hi)],
    decreases hi - j,
{
    if j < hi && !v[j] {
        lemma_next_true(v, j + 1, hi);
        lemma_count_first(v, j, next_true(v, j + 1, hi));
    }
}

/// Every step of a scan has a window: a place where it begins exists.
pub proof fn lemma_skip_start_exists(v: Seq<bool>, w: int, s: int, i: int)
    requires
        0 <= w,
        s - 1 <= i,
    ensures
        is_skip_start(v, w, s, i, skip_start(v, w, s, i)),
    decreases i - s + 1,
{
    if i == s - 1 {
        assert(is_skip_start(v, w, s, i, s));
    } else {
        lemma_skip_start_exists(v, w, s, i - 1);
        let j0 = skip_start(v, w, s, i - 1);
        lemma_count_split(v, j0, i, i + 1);
        lemma_count_split(v, s, i, i + 1);
        lemma_count_bounds(v, s, i);
        lemma_count_bounds(v, j0, i);
        lemma_count_split(v, s, j0, i + 1);
        lemma_count_bounds(v, s, j0);
        if count_true(v, j0, i + 1) > w {
            lemma_count_first(v, j0, i + 1);
            let j = next_true(v, j0 + 1, i + 1);
            lemma_next_true(v, j0 + 1, i + 1);
            lemma_count_split(v, j0 + 1, j, i + 1);
            assert(is_skip_start(v, w, s, i, j));
        } else {
            let j = next_true(v, j0, i + 1);
            lemma_next_true(v, j0, i + 1);
            lemma_count_split(v, j0, j, i + 1);
            assert(is_skip_start(v, w, s, i, j));
        }
    }
}

/// Windows only move forward: a later step's window begins no earlier.
pub proof fn lemma_skip_start_monotone(v: Seq<bool>, w: int, s: int, i: int, a: int, k: int, b: int)
    requires
        i <= k,
        is_skip_start(v, w, s, i, a),
        is_skip_start(v, w, s, k, b),
    ensures
        a <= b,
{
    if b < a {
        lemma_count_split(v, b, a, k + 1);
        lemma_count_split(v, a, i + 1, k + 1);
        lemma_count_first(v, b, a);
        lemma_count_bounds(v, b + 1, a);
        lemma_count_split(v, s, i + 1, k + 1);
        lemma_count_bounds(v, i + 1, k + 1);
    }
}

/// A scan over a series that keeps, at each step, the window of the last
/// `window` present samples.
#[derive(Debug)]
pub struct SkipNanWindow<'a> {
    /// The number of samples a window holds at most.
    window: usize,
    /// One flag per position: whether the position holds a sample.
    data: &'a [bool],
    /// The window after the last step.
    item: Item,
    /// The position of the next step.
    cursor: usize,
    /// The position of the first step.
    skip: usize,
}

impl<'a> SkipNanWindow<'a> {
    /// The flags that the scan runs over.
    pub closed spec fn samples(&self) -> Seq<bool> {
        self.data@
    }

    /// The number of samples a window holds at most.
    pub closed spec fn width(&self) -> int {
        self.window as int
    }

    /// The position of the first step.
    pub closed spec fn origin(&self) -> int {
        self.skip as int
    }

    /// The position of the next step.
    pub closed spec fn position(&self) -> int {
        self.cursor as int
    }

    /// Where the window began after the last step.
    pub closed spec fn last_start(&self) -> int {
        self.item.start as int
    }

    /// The state is one that `new` and `next` produce.
    #[verifier::type_invariant]
    closed spec fn wf(&self) -> bool {
        &&& self.skip <= self.cursor
        &&& self.cursor <= self.data@.len() ==> {
            &&& is_skip_start(
                self.data@,
                self.window as int,
                self.skip as int,
                self.cursor - 1,
                self.item.start as int,
            )
            &&& self.item.no_nan_count == skip_count(
                self.data@,
                self.window as int,
                self.skip as int,
                self.cursor - 1,
            )
        }
    }

    /// A scan over `data` whose first step is at position `skip`.
    pub fn new(data: &'a [bool], window: usize, skip: usize) -> (it: Self)
        ensures
            it.samples() == data@,
            it.width() == window,
            it.origin() == skip,
            it.position() == skip,
            it.last_start() == skip,
    {
        proof {
            lemma_count_bounds(data@, skip as int, skip as int);
        }
        SkipNanWindow { window, data, item: Item::new(skip, skip, skip, 0), cursor: skip, skip }
    }

    /// The next step: the window that ends at the next position, or `None`
    /// when the series is at its end.
    pub fn next(&mut self) -> (res: Option<Item>)
        ensures
            final(self).samples() == old(self).samples(),
            final(self).width() == old(self).width(),
            final(self).origin() == old(self).origin(),
            old(self).position() >= old(self).samples().len() ==> {
                &&& res.is_none()
                &&& final(self).position() == old(self).position()
                &&& final(self).last_start() == old(self).last_start()
            },
            old(self).position() < old(self).samples().len() ==> {
                &&& final(self).position() == old(self).position() + 1
                &&& res == Some(
                    skip_item(
                        old(self).samples(),
                        old(self).width(),
                        old(self).origin(),
                        old(self).position(),
                    ),
                )
                &&& res.unwrap().prev_start == old(self).last_start()
                &&& res.unwrap().start == final(self).last_start()
                &&& is_skip_start(
                    old(self).samples(),
                    old(self).width(),
                    old(self).origin(),
                    old(self).position(),
                    final(self).last_start(),
                )
            },
    {
        proof {
            use_type_invariant(&*self);
        }
        if self.cursor >= self.data.len() {
            return None;
        }
        let ghost v = self.data@;
        let ghost w = self.window as int;
        let ghost s = self.skip as int;
        let i = self.cursor;
        let before = self.item.start;
        let mut start = self.item.start;
        let mut count = self.item.no_nan_count;
        proof {
            lemma_count_bounds(v, s, i as int);
            lemma_count_bounds(v, start as int, i as int);
            lemma_count_split(v, s, i as int, i + 1);
            lemma_count_split(v, start as int, i as int, i + 1);
            if i as int > s {
                lemma_skip_start_unique(v, w, s, i - 1, before as int);
            }
        }
        if self.data[i] {
            count += 1;
        }
        let ghost grown = count as int;
        while count > self.window
            invariant
                v == self.data@,
                w == self.window as int,
                i < v.len(),
                s <= start <= i + 1,
                count == count_true(v, start as int, i + 1),
                count <= w + 1,
                grown > w ==> count >= w,
                grown <= w ==> count == grown,
            decreases i + 1 - start,
        {
            proof {
                lemma_count_bounds(v, start as int, i + 1);
                if start <= i {
                    lemma_count_first(v, start as int, i + 1);
                }
            }
            if self.data[start] {
                count -= 1;
            }
            start += 1;
        }
        while start <= i && !self.data[start]
            invariant
                v == self.data@,
                i < v.len(),
                s <= start <= i + 1,
                count == count_true(v, start as int, i + 1),
            decreases i + 1 - start,
        {
            proof {
                lemma_count_first(v, start as int, i + 1);
            }
            start += 1;
        }
        proof {
            lemma_count_split(v, s, start as int, i + 1);
            lemma_count_bounds(v, s, start as int);
            assert(count == skip_count(v, w, s, i as int));
            assert(is_skip_start(v, w, s, i as int, start as int));
            lemma_skip_start_unique(v, w, s, i as int, start as int);
        }
        let item = Item::new(start, before, i, count);
        *self = SkipNanWindow { window: self.window, data: self.data, item, cursor: i + 1, skip: self.skip };
        Some(item)
    }
}

impl<'a> Clone for SkipNanWindow<'a> {
    fn clone(&self) -> (it: Self)
        ensures
            it == *self,
    {
        proof {
            use_type_invariant(self);
        }
        SkipNanWindow {
            window: self.window,
            data: self.data,
            item: self.item,
            cursor: self.cursor,
            skip: self.skip,
        }
    }
}

} // verus!
