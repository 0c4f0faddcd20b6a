use vstd::prelude::*;

verus! {

/// A half-open interval `[offset, offset + length)` of positions in some
/// sequence.
///
/// Two regions are ordered when one lies wholly at or before the start of
/// the other; overlapping regions are incomparable.  Equality is
/// structural.
#[derive(Clone, Copy, PartialEq, Eq, Structural, Debug)]
pub struct Region {
    /// Starting position of this region.
    pub offset: usize,
    /// Number of positions covered by this region.
    pub length: usize,
}

impl Region {
    /// One past the last position covered by this region.
    pub open spec fn spec_end(self) -> int {
        self.offset + self.length
    }

    /// `self` lies wholly before `other`, with a gap of at least one
    /// position between them.
    pub open spec fn spec_strictly_before(self, other: Region) -> bool {
        self.offset + self.length < other.offset
    }

    pub fn new(offset: usize, length: usize) -> (r: Self)
        ensures
            r.offset == offset,
            r.length == length,
    {
        Region { offset, length }
    }

    /// Construct the region covering the half-open range `start..end`.
    pub fn from_range(range: core::ops::Range<usize>) -> (r: Self)
        requires
            range.start <= range.end,
        ensures
            r.offset == range.start,
            r.length == range.end - range.start,
    {
        Region { offset: range.start, length: range.end - range.start }
    }

    /// View this region as the half-open range `offset..offset + length`.
    pub fn as_range(&self) -> (r: core::ops::Range<usize>)
        requires
            self.offset + self.length <= usize::MAX,
        ensures
            r.start == self.offset,
            r.end == self.spec_end(),
    {
        self.offset..(self.offset + self.length)
    }

    /// Decide `spec_strictly_before`; total, whatever the fields hold.
    pub fn strictly_before(&self, other: &Region) -> (r: bool)
        ensures
            r == self.spec_strictly_before(*other),
    {
        (self.offset as u128) + (self.length as u128) < (other.offset as u128)
    }
}

impl PartialOrd for Region {
    fn partial_cmp(&self, other: &Self) -> Option<core::cmp::Ordering> {
        if self.offset == other.offset && self.length == other.length {
            Some(core::cmp::Ordering::Equal)
        } else if (self.offset as u128) + (self.length as u128) <= (other.offset as u128) {
            Some(core::cmp::Ordering::Less)
        } else if (other.offset as u128) + (other.length as u128) <= (self.offset as u128) {
            Some(core::cmp::Ordering::Greater)
        } else {
            None
        }
    }
}

impl vstd::std_specs::cmp::PartialOrdSpecImpl for Region {
    open spec fn obeys_partial_cmp_spec() -> bool {
        true
    }

    open spec fn partial_cmp_spec(&self, other: &Self) -> Option<core::cmp::Ordering> {
        if self.offset == other.offset && self.length == other.length {
            Some(core::cmp::Ordering::Equal)
        } else if self.offset + self.length <= other.offset {
            Some(core::cmp::Ordering::Less)
        } else if other.offset + other.length <= self.offset {
            Some(core::cmp::Ordering::Greater)
        } else {
            None
        }
    }
}

} // verus!
