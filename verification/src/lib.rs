//! A package-identity encoding layer for a version-constraint solver that can
//! pick only one version per package name.
//!
//! The registry ([`index::Index`]) maps package names to versions and their
//! dependency edges.  The identity taxonomy ([`package::Package`]) encodes a
//! package's major-version lines ("buckets") and optional feature bundles as
//! separate solver-level packages, and the projection logic
//! ([`project`]) turns "dependencies of identity X at version V" into edges
//! the solver understands, deferring multi-bucket choices through synthetic
//! proxy identities.

pub mod version;
pub mod range;
pub mod package;
pub mod index;
pub mod project;
