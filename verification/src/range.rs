//! Half-open ranges of positions and of local versions.

use vstd::prelude::*;

verus! {

/// The half-open range `start..end`.
#[derive(Debug, Clone, Copy, PartialEq, Eq, Structural)]
pub struct DTRange {
    pub start: usize,
    pub end: usize,
}

impl DTRange {
    /// Whether the two ends stand in order.
    pub open spec fn ordered(self) -> bool {
        self.start <= self.end
    }

    /// How many numbers the range holds.
    pub open spec fn size(self) -> int {
        self.end - self.start
    }

    /// Whether the range holds `v`.
    pub open spec fn has(self, v: int) -> bool {
        self.start <= v < self.end
    }

    pub fn new(start: usize, end: usize) -> (out: DTRange)
        ensures
            out == (DTRange { start, end }),
    {
        DTRange { start, end }
    }

    /// How many numbers the range holds.
    pub fn len(&self) -> (out: usize)
        requires
            self.ordered(),
        ensures
            out == self.size(),
    {
        self.end - self.start
    }

    /// Whether the range holds no number.
    pub fn is_empty(&self) -> (out: bool)
        ensures
            out == (self.start == self.end),
    {
        self.start == self.end
    }

    /// The last number of the range.
    pub fn last(&self) -> (out: usize)
        requires
            self.start < self.end,
        ensures
            out == self.end - 1,
    {
        self.end - 1
    }
}

impl From<std::ops::Range<usize>> for DTRange {
    fn from(r: std::ops::Range<usize>) -> (out: DTRange) {
        DTRange { start: r.start, end: r.end }
    }
}

impl vstd::std_specs::convert::FromSpecImpl<std::ops::Range<usize>> for DTRange {
    open spec fn obeys_from_spec() -> bool {
        true
    }

    open spec fn from_spec(r: std::ops::Range<usize>) -> DTRange {
        DTRange { start: r.start, end: r.end }
    }
}

} // verus!
