//! A histogram bucket: a value range and the number of observations in it.
use vstd::prelude::*;
use core::ops::RangeInclusive;

verus! {

/// A bucket represents a quantized range of values and a count of observations
/// that fall into that range.
#[derive(Clone, Debug, PartialEq, Eq, Structural, Hash)]
pub struct Bucket {
    count: u64,
    start: u64,
    end: u64,
}

impl Bucket {
    /// The number of observations in the bucket.
    pub closed spec fn spec_count(&self) -> nat {
        self.count as nat
    }

    /// The smallest value in the bucket's range.
    pub closed spec fn spec_start(&self) -> nat {
        self.start as nat
    }

    /// The largest value in the bucket's range.
    pub closed spec fn spec_end(&self) -> nat {
        self.end as nat
    }

    /// The bucket holds `count` observations in the range `start..=end`.
    pub open spec fn describes(&self, count: nat, start: nat, end: nat) -> bool {
        &&& self.spec_count() == count
        &&& self.spec_start() == start
        &&& self.spec_end() == end
    }

    /// A bucket covering `start..=end` that holds `count` observations.
    pub(crate) fn new(count: u64, start: u64, end: u64) -> (r: Bucket)
        ensures
            r.spec_count() == count,
            r.spec_start() == start,
            r.spec_end() == end,
    {
        Bucket { count, start, end }
    }

    /// Returns the number of observations within the bucket.
    pub fn count(&self) -> (r: u64)
        ensures
            r == self.spec_count(),
    {
        self.count
    }

    /// Returns the range of values covered by the bucket.
    pub fn range(&self) -> (r: RangeInclusive<u64>)
        ensures
            r@.start == self.spec_start(),
            r@.end == self.spec_end(),
            r@.exhausted == false,
    {
        RangeInclusive::new(self.start, self.end)
    }

    /// Returns the inclusive lower bound of the range.
    pub fn start(&self) -> (r: u64)
        ensures
            r == self.spec_start(),
    {
        self.start
    }

    /// Returns the inclusive upper bound of the range.
    pub fn end(&self) -> (r: u64)
        ensures
            r == self.spec_end(),
    {
        self.end
    }
}

} // verus!
