//! Per-call configuration: where to start, how many groups, which flags.

use vstd::prelude::*;

verus! {

/// Flag bit: missing values take no slot of a window.
pub const FLAG_SKIP_NAN: u64 = 1;

/// Flag bit: a position whose window is not full has no value.
pub const FLAG_STRICTLY_CYCLE: u64 = 2;

/// How one call is to be evaluated.
#[derive(Debug, Clone, Copy)]
pub struct Context {
    /// First position to write; a negative value counts from the end.
    pub _start: i32,
    /// Number of equal-length segments the series is made of; 0 means 1.
    pub _groups: u32,
    /// Behaviour flags; bits other than the two named ones are ignored.
    pub _flags: u64,
}

/// The first written position for a segment of `total` samples and a start offset `start`.
pub open spec fn start_index(start: int, total: int) -> int {
    if total <= 0 {
        0
    } else if start >= 0 {
        if start < total - 1 { start } else { total - 1 }
    } else if total + start > 0 {
        total + start
    } else {
        0
    }
}

impl Context {
    /// The first written position within a segment of `total` samples.
    pub open spec fn spec_start(&self, total: int) -> int {
        start_index(self._start as int, total)
    }

    /// The number of segments, never zero.
    pub open spec fn spec_groups(&self) -> int {
        if self._groups == 0 { 1 } else { self._groups as int }
    }

    /// The length of one segment of a series of `total` samples.
    pub open spec fn spec_chunk_size(&self, total: int) -> int {
        total / self.spec_groups()
    }

    /// Whether missing values are skipped when a window is composed.
    pub open spec fn spec_skip_nan(&self) -> bool {
        self._flags & FLAG_SKIP_NAN != 0
    }

    /// Whether a window has to be full before a value is written.
    pub open spec fn spec_strictly_cycle(&self) -> bool {
        self._flags & FLAG_STRICTLY_CYCLE != 0
    }

    /// A context of the given start offset, number of groups and flags.
    pub fn new(start: i32, groups: u32, flags: u64) -> (ctx: Self)
        ensures
            ctx._start == start,
            ctx._groups == groups,
            ctx._flags == flags,
    {
        Self { _start: start, _groups: groups, _flags: flags }
    }

    /// The first position to write in a segment of `total` samples.
    pub fn start(&self, total: usize) -> (r: usize)
        ensures
            r == self.spec_start(total as int),
            total > 0 ==> r < total,
    {
        if total == 0 {
            return 0;
        }
        if self._start >= 0 {
            let s: u32 = self._start as u32;
            if (s as u64) < (total as u64) - 1 {
                s as usize
            } else {
                total - 1
            }
        } else {
            let back: u64 = (-(self._start as i64)) as u64;
            if back < total as u64 {
                total - (back as usize)
            } else {
                0
            }
        }
    }

    /// The number of groups, which is one at least.
    pub fn groups(&self) -> (r: usize)
        ensures
            r == self.spec_groups(),
            r >= 1,
    {
        if self._groups == 0 {
            1
        } else {
            self._groups as usize
        }
    }

    /// The length of one segment of a series of `total` samples in all.
    pub fn chunk_size(&self, total: usize) -> (r: usize)
        ensures
            r == self.spec_chunk_size(total as int),
    {
        total / self.groups()
    }

    /// Whether missing values take no slot of a window.
    pub fn skip_nan(&self) -> (r: bool)
        ensures
            r == self.spec_skip_nan(),
    {
        self._flags & FLAG_SKIP_NAN != 0
    }

    /// Whether a window has to be full before a value is written.
    pub fn strictly_cycle(&self) -> (r: bool)
        ensures
            r == self.spec_strictly_cycle(),
    {
        self._flags & FLAG_STRICTLY_CYCLE != 0
    }
}

impl Default for Context {
    fn default() -> (ctx: Self)
        ensures
            ctx._start == 0,
            ctx._groups == 0,
            ctx._flags == 0,
    {
        Context { _start: 0, _groups: 0, _flags: 0 }
    }
}

impl From<(i32, u32, u64)> for Context {
    fn from(parts: (i32, u32, u64)) -> (ctx: Self) {
        Context { _start: parts.0, _groups: parts.1, _flags: parts.2 }
    }
}

impl vstd::std_specs::convert::FromSpecImpl<(i32, u32, u64)> for Context {
    open spec fn obeys_from_spec() -> bool {
        true
    }

    open spec fn from_spec(parts: (i32, u32, u64)) -> Self {
        Context { _start: parts.0, _groups: parts.1, _flags: parts.2 }
    }
}

} // verus!
