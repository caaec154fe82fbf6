//! Semver ranges, backed by the solver's range algebra.
//!
//! The solver's `Range` type is opaque here: everything the library knows
//! about a range value is stated through `range_set`, the mathematical set of
//! versions the range admits.  Each trusted wrapper pins down `range_set` for
//! one operation of the outside algebra.

use vstd::prelude::*;
use crate::version::{Semver, lemma_next_le};
use pubgrub::range::Range;
use pubgrub::version::SemanticVersion;

verus! {

/// A set of versions, represented by the solver's range algebra.
///
/// The verifier sees nothing inside a value of this type: `range_set` is its
/// only window.  The `inner` field is public so that solver-facing code
/// outside the library can hand the raw range to the solver.
#[verifier::external_body]
pub struct VersionRange {
    pub inner: Range<SemanticVersion>,
}

/// The set of versions a range admits.
pub uninterp spec fn range_set(r: VersionRange) -> Set<Semver>;

/// Relies on pubgrub's `Range::higher_than`: the set `lo <= v`.
#[verifier::external_body]
pub fn range_higher_than(lo: &Semver) -> (r: VersionRange)
    ensures
        range_set(r) == Set::new(|v: Semver| lo.spec_le(v)),
{
    VersionRange { inner: Range::higher_than((lo.major, lo.minor, lo.patch)) }
}

/// Relies on pubgrub's `Range::strictly_lower_than`: the set `v < hi`
/// (the empty set when `hi` is the lowest version).
#[verifier::external_body]
pub fn range_strictly_lower_than(hi: &Semver) -> (r: VersionRange)
    ensures
        range_set(r) == Set::new(|v: Semver| v.spec_lt(*hi)),
{
    VersionRange { inner: Range::strictly_lower_than((hi.major, hi.minor, hi.patch)) }
}

/// Relies on pubgrub's `Range::between`: the set `lo <= v < hi`
/// (the empty set when `lo >= hi`).
#[verifier::external_body]
pub fn range_between(lo: &Semver, hi: &Semver) -> (r: VersionRange)
    ensures
        range_set(r) == Set::new(|v: Semver| lo.spec_le(v) && v.spec_lt(*hi)),
{
    VersionRange { inner: Range::between((lo.major, lo.minor, lo.patch), (hi.major, hi.minor, hi.patch)) }
}

/// Relies on pubgrub's `Range::any`: the set of all versions.
#[verifier::external_body]
pub fn range_full() -> (r: VersionRange)
    ensures
        range_set(r) == full_version_set(),
{
    VersionRange { inner: Range::any() }
}

/// Relies on pubgrub's `Range::contains`: membership in the range's set.
#[verifier::external_body]
pub fn range_contains(r: &VersionRange, v: &Semver) -> (b: bool)
    ensures
        b == range_set(*r).contains(*v),
{
    r.inner.contains(&SemanticVersion::new(v.major, v.minor, v.patch))
}

/// Relies on pubgrub's `Range::intersection`: the set intersection.
#[verifier::external_body]
pub fn range_intersection(a: &VersionRange, b: &VersionRange) -> (r: VersionRange)
    ensures
        range_set(r) == range_set(*a).intersect(range_set(*b)),
{
    VersionRange { inner: a.inner.intersection(&b.inner) }
}

/// Relies on pubgrub's `==` on ranges.  pubgrub keeps ranges in a canonical
/// sorted interval form (its constructors and set operations all preserve
/// it, and pubgrub itself compares ranges for semantic equality this way),
/// so structural equality coincides with equality of the admitted sets.
#[verifier::external_body]
pub fn range_eq(a: &VersionRange, b: &VersionRange) -> (r: bool)
    ensures
        r == (range_set(*a) == range_set(*b)),
{
    a.inner == b.inner
}

/// Relies on pubgrub's `Range::lowest_version`: the least admitted version,
/// or `None` exactly when the range admits nothing.
#[verifier::external_body]
pub fn range_lowest(r: &VersionRange) -> (res: Option<Semver>)
    ensures
        match res {
            Some(lo) => range_set(*r).contains(lo) && forall|w: Semver|
                #[trigger] range_set(*r).contains(w) ==> lo.spec_le(w),
            None => range_set(*r) == Set::<Semver>::empty(),
        },
{
    r.inner.lowest_version().map(
        |sv| {
            let (major, minor, patch) = sv.into();
            Semver { major, minor, patch }
        },
    )
}

/// Relies on pubgrub's derived `Range::clone`: the copy admits the same set.
#[verifier::external_body]
pub fn range_clone(r: &VersionRange) -> (c: VersionRange)
    ensures
        range_set(c) == range_set(*r),
{
    VersionRange { inner: r.inner.clone() }
}

/// The set of versions whose major component is `b`.
pub open spec fn bucket_set(b: u32) -> Set<Semver> {
    Set::new(|v: Semver| v.major == b)
}

/// The set of all versions.
pub open spec fn full_version_set() -> Set<Semver> {
    Set::new(|v: Semver| true)
}

/// The set holding one version.
pub open spec fn singleton_version(v: Semver) -> Set<Semver> {
    Set::new(|w: Semver| w == v)
}

/// The full range of bucket `b`: all versions with major component `b`.
pub fn bucket_range(b: u32) -> (r: VersionRange)
    ensures
        range_set(r) == bucket_set(b),
{
    let lo = Semver::new(b, 0, 0);
    if b < u32::MAX {
        let hi = Semver::new(b + 1, 0, 0);
        let r = range_between(&lo, &hi);
        proof {
            assert(range_set(r) =~= bucket_set(b));
        }
        r
    } else {
        let r = range_higher_than(&lo);
        proof {
            assert(range_set(r) =~= bucket_set(b));
        }
        r
    }
}

/// The range admitting exactly one version.
pub fn range_exactly(v: &Semver) -> (r: VersionRange)
    ensures
        range_set(r) == singleton_version(*v),
{
    if !v.is_max() {
        let hi = v.next();
        let r = range_between(v, &hi);
        proof {
            assert forall|w: Semver| range_set(r).contains(w) <==> w == *v by {
                lemma_next_le(*v, w);
            }
            assert(range_set(r) =~= singleton_version(*v));
        }
        r
    } else {
        let r = range_higher_than(v);
        proof {
            assert(range_set(r) =~= singleton_version(*v));
        }
        r
    }
}

/// One side of a user-supplied version requirement.
#[derive(Clone, Copy, Debug, PartialEq, Eq, Structural)]
pub enum VersionBound {
    Unbounded,
    Inclusive(Semver),
    Exclusive(Semver),
}

impl VersionBound {
    /// Does `v` satisfy this bound read as a lower bound?
    pub open spec fn admits_from(self, v: Semver) -> bool {
        match self {
            VersionBound::Unbounded => true,
            VersionBound::Inclusive(s) => s.spec_le(v),
            VersionBound::Exclusive(s) => s.spec_lt(v),
        }
    }

    /// Does `v` satisfy this bound read as an upper bound?
    pub open spec fn admits_until(self, v: Semver) -> bool {
        match self {
            VersionBound::Unbounded => true,
            VersionBound::Inclusive(e) => v.spec_le(e),
            VersionBound::Exclusive(e) => v.spec_lt(e),
        }
    }
}

/// The set of versions between two user-supplied bounds.
pub open spec fn bounds_set(start: VersionBound, end: VersionBound) -> Set<Semver> {
    Set::new(|v: Semver| start.admits_from(v) && end.admits_until(v))
}

/// Convert a pair of bounds into the canonical half-open range form.
///
/// A version is admitted by the result exactly when it satisfies both
/// original bounds, for every combination of unbounded, weak and strict
/// bounds; nothing is rejected or admitted spuriously at the edges of the
/// version space.
pub fn range_from_bounds(start: &VersionBound, end: &VersionBound) -> (r: VersionRange)
    ensures
        range_set(r) == bounds_set(*start, *end),
{
    let lo: Semver = match start {
        VersionBound::Unbounded => Semver::zero(),
        VersionBound::Inclusive(s) => *s,
        VersionBound::Exclusive(s) => {
            if s.is_max() {
                // Nothing lies strictly above the greatest version.
                let r = range_between(s, s);
                proof {
                    assert(range_set(r) =~= bounds_set(*start, *end));
                }
                return r;
            }
            s.next()
        },
    };
    let r = match end {
        VersionBound::Unbounded => range_higher_than(&lo),
        VersionBound::Inclusive(e) => {
            if e.is_max() {
                // A weak upper bound at the greatest version excludes nothing.
                range_higher_than(&lo)
            } else {
                let hi = e.next();
                range_between(&lo, &hi)
            }
        },
        VersionBound::Exclusive(e) => range_between(&lo, e),
    };
    proof {
        assert forall|v: Semver| range_set(r).contains(v) <==> bounds_set(
            *start,
            *end,
        ).contains(v) by {
            match *start {
                VersionBound::Unbounded => {},
                VersionBound::Inclusive(s) => {},
                VersionBound::Exclusive(s) => {
                    lemma_next_le(s, v);
                },
            }
            match *end {
                VersionBound::Unbounded => {},
                VersionBound::Inclusive(e) => {
                    if !e.is_top() {
                        lemma_next_le(e, v);
                    }
                },
                VersionBound::Exclusive(e) => {},
            }
        }
        assert(range_set(r) =~= bounds_set(*start, *end));
    }
    r
}

} // verus!
