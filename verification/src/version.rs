//! Versions: totally ordered (major, minor, patch) triples.

use vstd::prelude::*;

verus! {

/// A version triple.  Ordering is lexicographic on (major, minor, patch) and
/// drives range containment and the newest-first listing of versions.
#[derive(Clone, Copy, Debug, PartialEq, Eq, Hash, Structural)]
pub struct Semver {
    pub major: u32,
    pub minor: u32,
    pub patch: u32,
}

impl Semver {
    /// Lexicographic `self <= other`.
    pub open spec fn spec_le(self, other: Semver) -> bool {
        if self.major != other.major {
            self.major < other.major
        } else if self.minor != other.minor {
            self.minor < other.minor
        } else {
            self.patch <= other.patch
        }
    }

    /// Lexicographic `self < other`.
    pub open spec fn spec_lt(self, other: Semver) -> bool {
        self.spec_le(other) && self != other
    }

    /// The greatest representable version.
    pub open spec fn is_top(self) -> bool {
        self.major == u32::MAX && self.minor == u32::MAX && self.patch == u32::MAX
    }

    /// The immediate successor in the lexicographic order.
    pub open spec fn spec_next(self) -> Semver
        recommends
            !self.is_top(),
    {
        if self.patch < u32::MAX {
            Semver { major: self.major, minor: self.minor, patch: (self.patch + 1) as u32 }
        } else if self.minor < u32::MAX {
            Semver { major: self.major, minor: (self.minor + 1) as u32, patch: 0 }
        } else {
            Semver { major: (self.major + 1) as u32, minor: 0, patch: 0 }
        }
    }

    pub fn new(major: u32, minor: u32, patch: u32) -> (v: Semver)
        ensures
            v == (Semver { major, minor, patch }),
    {
        Semver { major, minor, patch }
    }

    pub fn zero() -> (v: Semver)
        ensures
            v == (Semver { major: 0u32, minor: 0u32, patch: 0u32 }),
    {
        Semver { major: 0, minor: 0, patch: 0 }
    }

    pub fn le(&self, other: &Semver) -> (r: bool)
        ensures
            r == self.spec_le(*other),
    {
        if self.major != other.major {
            self.major < other.major
        } else if self.minor != other.minor {
            self.minor < other.minor
        } else {
            self.patch <= other.patch
        }
    }

    pub fn lt(&self, other: &Semver) -> (r: bool)
        ensures
            r == self.spec_lt(*other),
    {
        if self.major != other.major {
            self.major < other.major
        } else if self.minor != other.minor {
            self.minor < other.minor
        } else {
            self.patch < other.patch
        }
    }

    pub fn is_max(&self) -> (r: bool)
        ensures
            r == self.is_top(),
    {
        self.major == u32::MAX && self.minor == u32::MAX && self.patch == u32::MAX
    }

    /// The next distinguishable version: the least version strictly above
    /// `self`.  Carries into the next minor or major line when a component
    /// is saturated, so every non-greatest version has a successor.
    pub fn next(&self) -> (v: Semver)
        requires
            !self.is_top(),
        ensures
            v == self.spec_next(),
    {
        if self.patch < u32::MAX {
            Semver { major: self.major, minor: self.minor, patch: self.patch + 1 }
        } else if self.minor < u32::MAX {
            Semver { major: self.major, minor: self.minor + 1, patch: 0 }
        } else {
            Semver { major: self.major + 1, minor: 0, patch: 0 }
        }
    }
}

/// The successor rewrites a strict lower bound as a weak one: for any version
/// `a` that is not the greatest, `a < b` exactly when `a.spec_next() <= b`.
pub proof fn lemma_next_le(a: Semver, b: Semver)
    requires
        !a.is_top(),
    ensures
        a.spec_lt(b) <==> a.spec_next().spec_le(b),
{
}

} // verus!
