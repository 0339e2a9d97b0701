//! Monotone, mergeable revision numbers.

use vstd::prelude::*;

verus! {

/// A revision number for one source path, and for the index document itself.
///
/// Versions are totally ordered by their integer value, start at 1, and
/// `next` yields a strictly greater value until the (unreachable in
/// practice) top of the range, where it stays put.
#[derive(Clone, Copy, Debug, PartialEq, Eq, PartialOrd, Ord, Hash, Structural)]
pub struct Version(pub u128);

impl Version {
    /// The integer value of this version.
    pub open spec fn spec_value(self) -> int {
        self.0 as int
    }

    /// The strictly greater successor, saturating at the top of the range.
    pub fn next(&self) -> (r: Version)
        ensures
            r.spec_value() == if self.spec_value() < u128::MAX { self.spec_value() + 1 } else { self.spec_value() as int },
            r.spec_value() >= self.spec_value(),
    {
        if self.0 < u128::MAX {
            Version(self.0 + 1)
        } else {
            Version(self.0)
        }
    }

    /// Integer comparison, usable from verified code.
    pub fn is_greater_than(&self, other: &Version) -> (r: bool)
        ensures
            r == (self.spec_value() > other.spec_value()),
    {
        self.0 > other.0
    }

    /// The greater of two versions.
    pub fn max_merge(&self, other: &Version) -> (r: Version)
        ensures
            r.spec_value() == if self.spec_value() >= other.spec_value() { self.spec_value() } else { other.spec_value() },
    {
        if self.0 >= other.0 {
            Version(self.0)
        } else {
            Version(other.0)
        }
    }
}

impl Default for Version {
    /// The version of the first revision of any source path.
    fn default() -> (r: Version)
        ensures
            r.spec_value() == 1,
    {
        Version(1)
    }
}

} // verus!
