//! Closed integer ranges: intersection and containment tests, sizes, and
//! ordering a pair of ranges by size.

use vstd::prelude::*;

verus! {

/// A closed range of unsigned integers, from `start` to `end` inclusive.
#[derive(Debug, Clone, Copy, PartialEq, Eq, Structural)]
pub struct Range {
    start: u32,
    end: u32,
}

impl Range {
    pub closed spec fn spec_start(self) -> u32 {
        self.start
    }

    pub closed spec fn spec_end(self) -> u32 {
        self.end
    }

    pub open spec fn wf(self) -> bool {
        self.spec_start() <= self.spec_end()
    }

    /// A value lies within the range.
    pub open spec fn covers(self, v: int) -> bool {
        self.spec_start() <= v <= self.spec_end()
    }

    pub fn new(start: u32, end: u32) -> (r: Range)
        requires
            start <= end,
        ensures
            r.wf(),
            r.spec_start() == start,
            r.spec_end() == end,
    {
        Range { start, end }
    }

    /// The two ranges share at least one value.
    pub fn intersects(&self, other: &Range) -> (r: bool)
        ensures
            r == !(self.spec_start() > other.spec_end() || self.spec_end()
                < other.spec_start()),
            self.wf() && other.wf() ==> r == exists|v: int|
                self.covers(v) && #[trigger] other.covers(v),
    {
        proof {
            if self.wf() && other.wf() && !(self.start > other.end || self.end < other.start) {
                let v = if self.start >= other.start {
                    self.start as int
                } else {
                    other.start as int
                };
                assert(self.covers(v) && other.covers(v));
            }
        }
        if self.start > other.end {
            return false;
        }
        if self.end < other.start {
            return false;
        }
        true
    }

    /// Every value of `other` lies within `self`.
    pub fn contains(&self, other: &Range) -> (r: bool)
        ensures
            r == (self.spec_start() <= other.spec_start() && self.spec_end()
                >= other.spec_end()),
    {
        self.start <= other.start && self.end >= other.end
    }

    /// The spread of the range: the distance between its ends.
    pub fn size(&self) -> (s: u32)
        requires
            self.wf(),
        ensures
            s == self.spec_end() - self.spec_start(),
    {
        self.end - self.start
    }

    /// Returns the pair of ranges in ascending order of size.
    pub fn size_pair<'a>(&'a self, other: &'a Range) -> (r: (&'a Range, &'a Range))
        requires
            self.wf(),
            other.wf(),
        ensures
            if self.spec_end() - self.spec_start() < other.spec_end() - other.spec_start() {
                r.0 == self && r.1 == other
            } else {
                r.0 == other && r.1 == self
            },
    {
        if self.size() < other.size() {
            (self, other)
        } else {
            (other, self)
        }
    }
}

} // verus!
