//! A closed interval of addresses.

use vstd::prelude::*;
use crate::address_range::spans_touch;

verus! {

/// The addresses from `start` to `end`, both included, with `start <= end`.
#[derive(Clone, Copy, Debug, PartialEq, Eq, Structural)]
pub struct Range {
    pub start: u32,
    pub end: u32,
}

impl Range {
    /// The interval is well formed: it does not end before it starts.
    pub open spec fn wf(&self) -> bool {
        self.start <= self.end
    }

    /// Whether this interval and `other` share an address.
    pub open spec fn touches(&self, other: Range) -> bool {
        spans_touch(self.start as int, self.end as int, other.start as int, other.end as int)
    }

    /// The smallest interval that holds both this interval and `other`.
    pub open spec fn join(&self, other: Range) -> Range {
        Range {
            start: if self.start <= other.start { self.start } else { other.start },
            end: if self.end >= other.end { self.end } else { other.end },
        }
    }

    /// Creates the interval from `start_addr` to `end_addr`.
    pub fn new(start_addr: u32, end_addr: u32) -> (range: Range)
        requires
            start_addr <= end_addr,
        ensures
            range.start == start_addr,
            range.end == end_addr,
            range.wf(),
    {
        Range { start: start_addr, end: end_addr }
    }

    /// Widens this interval to hold `range` too, if the two share an address.
    /// Returns whether it did; an interval apart from `range` is left as it was.
    pub fn merge(&mut self, range: Range) -> (merged: bool)
        ensures
            merged == old(self).touches(range),
            merged ==> *final(self) == old(self).join(range),
            !merged ==> *final(self) == *old(self),
            old(self).wf() && range.wf() ==> final(self).wf(),
    {
        if self.end >= range.start && range.end >= self.start {
            if range.start < self.start {
                self.start = range.start;
            }
            if range.end > self.end {
                self.end = range.end;
            }
            return true;
        }
        false
    }
}

} // verus!
