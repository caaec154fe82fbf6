use multiversion_features::index::{DepReq, Index};
use multiversion_features::package::{Bucket, Package};
use multiversion_features::project::Dependencies;
use multiversion_features::range::{VersionBound, VersionRange};
use multiversion_features::version::Semver;
use pubgrub::range::Range;
use pubgrub::solver::{Dependencies as SolverDeps, DependencyConstraints, DependencyProvider};
use pubgrub::type_aliases::SelectedDependencies;
use pubgrub::version::SemanticVersion as SemVer;
use std::borrow::Borrow;
use std::fmt;

fn v(major: u32, minor: u32, patch: u32) -> Semver {
    Semver { major, minor, patch }
}

fn to_solver_version(w: &Semver) -> SemVer {
    SemVer::new(w.major, w.minor, w.patch)
}

fn from_solver_version(w: &SemVer) -> Semver {
    let (major, minor, patch) = (*w).into();
    Semver { major, minor, patch }
}

fn dep(name: &str, lo: (u32, u32, u32), hi: (u32, u32, u32), feats: &[&str]) -> DepReq {
    DepReq {
        name: name.to_string(),
        start: VersionBound::Inclusive(v(lo.0, lo.1, lo.2)),
        end: VersionBound::Exclusive(v(hi.0, hi.1, hi.2)),
        features: feats.iter().map(|f| f.to_string()).collect(),
    }
}

fn bucket(name: &str, b: u32) -> Package {
    Package::Bucket(Bucket { name: name.to_string(), bucket: b })
}

fn feature(name: &str, b: u32, f: &str) -> Package {
    Package::Feature { base: Bucket { name: name.to_string(), bucket: b }, feature: f.to_string() }
}

/// The solver-facing identity: the library's identity plus the `Display`
/// impl pubgrub requires of a package type.
#[derive(Clone, Debug, PartialEq, Eq, Hash)]
struct SolverPkg(Package);

impl fmt::Display for SolverPkg {
    fn fmt(&self, f: &mut fmt::Formatter<'_>) -> fmt::Result {
        f.write_str(&self.0.to_text())
    }
}

struct Provider(Index);

impl DependencyProvider<SolverPkg, SemVer> for Provider {
    fn choose_package_version<T: Borrow<SolverPkg>, U: Borrow<Range<SemVer>>>(
        &self,
        potential_packages: impl Iterator<Item = (T, U)>,
    ) -> Result<(T, Option<SemVer>), Box<dyn std::error::Error>> {
        let pots: Vec<(T, U)> = potential_packages.collect();
        if pots.is_empty() {
            panic!("the solver never offers an empty candidate list");
        }
        let candidates: Vec<(Package, VersionRange)> = pots
            .iter()
            .map(|(p, r)| {
                (p.borrow().0.clone(), VersionRange { inner: r.borrow().clone() })
            })
            .collect();
        let (idx, version) = self.0.choose_package_version(&candidates);
        let (t, _) = pots.into_iter().nth(idx).unwrap();
        Ok((t, version.map(|w| to_solver_version(&w))))
    }

    fn get_dependencies(
        &self,
        package: &SolverPkg,
        version: &SemVer,
    ) -> Result<SolverDeps<SolverPkg, SemVer>, Box<dyn std::error::Error>> {
        match self.0.get_dependencies(&package.0, &from_solver_version(version)) {
            Dependencies::Known(edges) => {
                let mut constraints: DependencyConstraints<SolverPkg, SemVer> =
                    DependencyConstraints::default();
                for (p, r) in edges {
                    constraints.insert(SolverPkg(p), r.inner);
                }
                Ok(SolverDeps::Known(constraints))
            }
            Dependencies::Unknown => Ok(SolverDeps::Unknown),
        }
    }
}

fn resolve(
    index: Index,
    root: Package,
    version: (u32, u32, u32),
) -> Result<SelectedDependencies<SolverPkg, SemVer>, String> {
    pubgrub::solver::resolve(&Provider(index), SolverPkg(root), version)
        .map_err(|e| format!("{:?}", e))
}

fn selected(sol: &SelectedDependencies<SolverPkg, SemVer>, p: Package) -> Option<(u32, u32, u32)> {
    sol.get(&SolverPkg(p)).map(|w| (*w).into())
}

/// Two dependents need different major lines of the same package; the
/// bucket encoding must let both be selected at once.
#[test]
fn resolves_two_buckets_of_one_package() {
    let mut index = Index::new();
    index.add_deps("a", v(1, 0, 0), vec![dep("b", (1, 0, 0), (2, 0, 0), &[])]);
    index.add_deps("a", v(1, 0, 0), vec![dep("c", (1, 0, 0), (2, 0, 0), &[])]);
    index.add_deps("c", v(1, 0, 0), vec![dep("d", (1, 0, 0), (2, 0, 0), &[])]);
    index.add_deps("b", v(1, 0, 0), vec![dep("d", (3, 0, 0), (4, 0, 0), &[])]);
    index.add_deps("d", v(1, 0, 0), vec![]);
    index.add_deps("d", v(2, 0, 0), vec![]);
    index.add_deps("d", v(3, 0, 0), vec![]);

    let sol = resolve(index, bucket("a", 1), (1, 0, 0)).unwrap();
    assert_eq!(selected(&sol, bucket("a", 1)), Some((1, 0, 0)));
    assert_eq!(selected(&sol, bucket("b", 1)), Some((1, 0, 0)));
    assert_eq!(selected(&sol, bucket("c", 1)), Some((1, 0, 0)));
    // Both major lines of `d` are selected, as distinct identities.
    assert_eq!(selected(&sol, bucket("d", 1)), Some((1, 0, 0)));
    assert_eq!(selected(&sol, bucket("d", 3)), Some((3, 0, 0)));
}

/// Two dependents need different features of one package; resolution must
/// settle on a single concrete version offering both.
#[test]
fn resolves_two_features_on_one_version() {
    let mut index = Index::new();
    index.add_deps("a", v(1, 0, 0), vec![dep("b", (1, 0, 0), (2, 0, 0), &[])]);
    index.add_deps("a", v(1, 0, 0), vec![dep("c", (1, 0, 0), (2, 0, 0), &[])]);
    index.add_deps("c", v(1, 0, 0), vec![dep("d", (1, 0, 0), (2, 0, 0), &["alpha"])]);
    index.add_deps("b", v(1, 0, 0), vec![dep("d", (1, 0, 0), (2, 0, 0), &["beta"])]);
    // Only d@1.0.0 offers both features; the newer versions offer one each.
    index.add_feature("d", v(1, 0, 0), "alpha", vec![dep("e", (1, 0, 0), (2, 0, 0), &[])]);
    index.add_feature("d", v(1, 0, 0), "beta", vec![dep("f", (1, 0, 0), (2, 0, 0), &[])]);
    index.add_feature("d", v(1, 1, 0), "alpha", vec![dep("e", (1, 0, 0), (2, 0, 0), &[])]);
    index.add_feature("d", v(1, 2, 0), "beta", vec![dep("f", (1, 0, 0), (2, 0, 0), &[])]);
    index.add_deps("e", v(1, 0, 0), vec![]);
    index.add_deps("f", v(1, 0, 0), vec![]);

    let sol = resolve(index, bucket("a", 1), (1, 0, 0)).unwrap();
    assert_eq!(selected(&sol, bucket("d", 1)), Some((1, 0, 0)));
    assert_eq!(selected(&sol, feature("d", 1, "alpha")), Some((1, 0, 0)));
    assert_eq!(selected(&sol, feature("d", 1, "beta")), Some((1, 0, 0)));
    assert_eq!(selected(&sol, bucket("e", 1)), Some((1, 0, 0)));
    assert_eq!(selected(&sol, bucket("f", 1)), Some((1, 0, 0)));

    // Every selected feature identity has its base selected at the very
    // same version.
    for (pkg, ver) in sol.iter() {
        if let Package::Feature { base, .. } = &pkg.0 {
            let base_version = sol.get(&SolverPkg(Package::Bucket(base.clone())));
            assert_eq!(base_version, Some(ver));
        }
    }
}

/// When no single version offers both requested features, resolution
/// reports failure rather than picking two versions of the base.
#[test]
fn fails_when_features_never_coincide() {
    let mut index = Index::new();
    index.add_deps("a", v(1, 0, 0), vec![dep("b", (1, 0, 0), (2, 0, 0), &[])]);
    index.add_deps("a", v(1, 0, 0), vec![dep("c", (1, 0, 0), (2, 0, 0), &[])]);
    index.add_deps("c", v(1, 0, 0), vec![dep("d", (1, 0, 0), (2, 0, 0), &["alpha"])]);
    index.add_deps("b", v(1, 0, 0), vec![dep("d", (1, 0, 0), (2, 0, 0), &["beta"])]);
    index.add_feature("d", v(1, 1, 0), "alpha", vec![]);
    index.add_feature("d", v(1, 2, 0), "beta", vec![]);

    assert!(resolve(index, bucket("a", 1), (1, 0, 0)).is_err());
}

/// A dependency range spanning several buckets resolves through a proxy:
/// the solver picks a proxy version, and the reprojected edge selects one
/// bucket of the target.
#[test]
fn resolves_through_a_proxy() {
    let mut index = Index::new();
    index.add_deps("b", v(1, 0, 0), vec![dep("d", (1, 0, 0), (4, 0, 0), &[])]);
    index.add_deps("d", v(1, 0, 0), vec![]);
    index.add_deps("d", v(2, 0, 0), vec![]);
    index.add_deps("d", v(3, 0, 0), vec![]);

    let sol = resolve(index, bucket("b", 1), (1, 0, 0)).unwrap();
    assert_eq!(selected(&sol, bucket("b", 1)), Some((1, 0, 0)));
    // Exactly one bucket of `d` is selected through the proxy.
    let d_buckets: Vec<u32> = sol
        .keys()
        .filter_map(|p| match &p.0 {
            Package::Bucket(b) if b.name == "d" => Some(b.bucket),
            _ => None,
        })
        .collect();
    assert_eq!(d_buckets.len(), 1);
    let picked = d_buckets[0];
    assert_eq!(selected(&sol, bucket("d", picked)), Some((picked, 0, 0)));
}

/// Resolution of an identity whose package is not registered fails.
#[test]
fn fails_on_unknown_root() {
    let index = Index::new();
    assert!(resolve(index, bucket("ghost", 1), (1, 0, 0)).is_err());
}

/// A requested feature the target never declares makes that branch
/// unsatisfiable.
#[test]
fn fails_on_missing_feature() {
    let mut index = Index::new();
    index.add_deps("a", v(1, 0, 0), vec![dep("d", (1, 0, 0), (2, 0, 0), &["ghost"])]);
    index.add_deps("d", v(1, 0, 0), vec![]);
    assert!(resolve(index, bucket("a", 1), (1, 0, 0)).is_err());
}

/// A feature with no dependency edges of its own still resolves, pinning
/// its base.
#[test]
fn resolves_feature_without_edges() {
    let mut index = Index::new();
    index.add_feature("a", v(1, 0, 0), "feat", vec![]);
    let sol = resolve(index, feature("a", 1, "feat"), (1, 0, 0)).unwrap();
    assert_eq!(selected(&sol, feature("a", 1, "feat")), Some((1, 0, 0)));
    assert_eq!(selected(&sol, bucket("a", 1)), Some((1, 0, 0)));
}

/// A feature requested across several buckets goes through a proxy and
/// still pins one concrete version of the target.
#[test]
fn resolves_feature_through_proxy() {
    let mut index = Index::new();
    index.add_deps("a", v(1, 0, 0), vec![dep("d", (1, 0, 0), (3, 0, 0), &["alpha"])]);
    index.add_feature("d", v(1, 0, 0), "alpha", vec![]);
    index.add_feature("d", v(2, 0, 0), "alpha", vec![]);

    let sol = resolve(index, bucket("a", 1), (1, 0, 0)).unwrap();
    let feature_picks: Vec<(u32, SemVer)> = sol
        .iter()
        .filter_map(|(p, w)| match &p.0 {
            Package::Feature { base, feature } if base.name == "d" && feature == "alpha" => {
                Some((base.bucket, *w))
            }
            _ => None,
        })
        .collect();
    assert_eq!(feature_picks.len(), 1);
    let (picked_bucket, picked_version) = feature_picks[0];
    assert_eq!(
        selected(&sol, bucket("d", picked_bucket)),
        Some(picked_version.into())
    );
}

/// A mandatory edge that requests a feature pulls in the feature identity
/// and, through it, the feature's own dependencies.
#[test]
fn resolves_transitive_feature() {
    let mut index = Index::new();
    index.add_deps("a", v(1, 0, 0), vec![dep("b", (1, 0, 0), (2, 0, 0), &["feat"])]);
    index.add_feature("b", v(1, 0, 0), "feat", vec![dep("f", (1, 0, 0), (2, 0, 0), &[])]);
    index.add_deps("f", v(1, 0, 0), vec![]);

    let sol = resolve(index, bucket("a", 1), (1, 0, 0)).unwrap();
    assert_eq!(selected(&sol, bucket("a", 1)), Some((1, 0, 0)));
    assert_eq!(selected(&sol, bucket("b", 1)), Some((1, 0, 0)));
    assert_eq!(selected(&sol, feature("b", 1, "feat")), Some((1, 0, 0)));
    assert_eq!(selected(&sol, bucket("f", 1)), Some((1, 0, 0)));
}

/// A feature's own edges may request features in turn.
#[test]
fn resolves_recursive_feature() {
    let mut index = Index::new();
    index.add_deps("a", v(1, 0, 0), vec![dep("b", (1, 0, 0), (2, 0, 0), &["feat"])]);
    index.add_feature("b", v(1, 0, 0), "feat", vec![dep("f", (1, 0, 0), (2, 0, 0), &["rec"])]);
    index.add_feature("f", v(1, 0, 0), "rec", vec![]);

    let sol = resolve(index, bucket("a", 1), (1, 0, 0)).unwrap();
    assert_eq!(selected(&sol, feature("b", 1, "feat")), Some((1, 0, 0)));
    assert_eq!(selected(&sol, bucket("f", 1)), Some((1, 0, 0)));
    assert_eq!(selected(&sol, feature("f", 1, "rec")), Some((1, 0, 0)));
}
