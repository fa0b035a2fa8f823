//! A span of addresses that is known to hold written data.

use vstd::prelude::*;

verus! {

/// Whether two spans, each given by its first address and its end, overlap
/// or touch: the end of each reaches the start of the other.
pub open spec fn spans_touch(start1: int, end1: int, start2: int, end2: int) -> bool {
    end1 >= start2 && end2 >= start1
}

/// A span of addresses from `start` to `end`, with `start <= end`.
#[derive(Clone, Copy, Debug, PartialEq, Eq, Structural)]
pub struct AddressRange {
    pub start: u32,
    pub end: u32,
}

impl AddressRange {
    /// The span is well formed: it does not end before it starts.
    pub open spec fn wf(&self) -> bool {
        self.start <= self.end
    }

    /// Whether this span overlaps or touches `other`.
    pub open spec fn touches(&self, other: AddressRange) -> bool {
        spans_touch(self.start as int, self.end as int, other.start as int, other.end as int)
    }

    /// The smallest span that holds both this span and `other`.
    pub open spec fn join(&self, other: AddressRange) -> AddressRange {
        AddressRange {
            start: if self.start <= other.start { self.start } else { other.start },
            end: if self.end >= other.end { self.end } else { other.end },
        }
    }

    /// Creates the span from `start_addr` to `end_addr`.
    pub fn new(start_addr: u32, end_addr: u32) -> (range: AddressRange)
        requires
            start_addr <= end_addr,
        ensures
            range.start == start_addr,
            range.end == end_addr,
            range.wf(),
    {
        AddressRange { start: start_addr, end: end_addr }
    }

    /// Whether this span overlaps or touches `other`.
    pub fn overlaps(&self, other: &AddressRange) -> (hit: bool)
        ensures
            hit == self.touches(*other),
    {
        self.end >= other.start && other.end >= self.start
    }

    /// Widens this span to hold `range` too, if the two overlap or touch.
    /// Returns whether it did; a span apart from `range` is left as it was.
    pub fn merge(&mut self, range: AddressRange) -> (merged: bool)
        ensures
            merged == old(self).touches(range),
            merged ==> *final(self) == old(self).join(range),
            !merged ==> *final(self) == *old(self),
            old(self).wf() && range.wf() ==> final(self).wf(),
    {
        if self.end >= range.start && range.end >= self.start {
            if range.start < self.start {
                self.start = range.start;
            }
            if range.end > self.end {
                self.end = range.end;
            }
            return true;
        }
        false
    }
}

} // verus!
