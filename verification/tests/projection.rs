use multiversion_features::index::{DepReq, Index};
use multiversion_features::package::{Bucket, Package};
use multiversion_features::project::Dependencies;
use multiversion_features::range::VersionBound;
use multiversion_features::version::Semver;
use pubgrub::range::Range;
use pubgrub::version::SemanticVersion as SemVer;

fn v(major: u32, minor: u32, patch: u32) -> Semver {
    Semver { major, minor, patch }
}

fn dep(name: &str, lo: (u32, u32, u32), hi: (u32, u32, u32), feats: &[&str]) -> DepReq {
    DepReq {
        name: name.to_string(),
        start: VersionBound::Inclusive(v(lo.0, lo.1, lo.2)),
        end: VersionBound::Exclusive(v(hi.0, hi.1, hi.2)),
        features: feats.iter().map(|f| f.to_string()).collect(),
    }
}

fn bucket(name: &str, b: u32) -> Package {
    Package::Bucket(Bucket { name: name.to_string(), bucket: b })
}

#[test]
fn available_versions_newest_first() {
    let mut index = Index::new();
    index.add_deps("d", v(1, 0, 0), vec![]);
    index.add_deps("d", v(3, 0, 0), vec![]);
    index.add_deps("d", v(2, 0, 0), vec![]);
    index.add_deps("d", v(2, 5, 0), vec![]);
    assert_eq!(
        index.available_versions("d"),
        vec![v(3, 0, 0), v(2, 5, 0), v(2, 0, 0), v(1, 0, 0)]
    );
    // An unknown name is an empty answer, not an error.
    assert_eq!(index.available_versions("nope"), Vec::<Semver>::new());
}

#[test]
fn list_versions_filters_by_bucket() {
    let mut index = Index::new();
    for ver in [(1, 0, 0), (1, 2, 0), (2, 0, 0), (3, 0, 0), (3, 1, 0)] {
        index.add_deps("d", v(ver.0, ver.1, ver.2), vec![]);
    }
    assert_eq!(index.list_versions(&bucket("d", 1)), vec![v(1, 2, 0), v(1, 0, 0)]);
    assert_eq!(index.list_versions(&bucket("d", 3)), vec![v(3, 1, 0), v(3, 0, 0)]);
    assert_eq!(index.list_versions(&bucket("d", 9)), Vec::<Semver>::new());
}

#[test]
fn later_registration_wins_per_target() {
    let mut index = Index::new();
    index.add_deps("a", v(1, 0, 0), vec![dep("b", (1, 0, 0), (2, 0, 0), &[])]);
    // Registering the same (name, version) again replaces the entry for `b`
    // and adds one for `c`; nothing is dropped.
    index.add_deps("a", v(1, 0, 0), vec![dep("b", (1, 5, 0), (2, 0, 0), &[])]);
    index.add_deps("a", v(1, 0, 0), vec![dep("c", (1, 0, 0), (2, 0, 0), &[])]);
    match index.get_dependencies(&bucket("a", 1), &v(1, 0, 0)) {
        Dependencies::Known(edges) => {
            assert_eq!(edges.len(), 2);
            assert_eq!(edges[0].0, bucket("b", 1));
            assert_eq!(edges[0].1.inner, Range::<SemVer>::between((1, 5, 0), (2, 0, 0)));
            assert_eq!(edges[1].0, bucket("c", 1));
        }
        Dependencies::Unknown => panic!("record should be known"),
    }
}

#[test]
fn unknown_name_version_and_feature() {
    let mut index = Index::new();
    index.add_deps("a", v(1, 0, 0), vec![]);
    assert!(matches!(
        index.get_dependencies(&bucket("nope", 1), &v(1, 0, 0)),
        Dependencies::Unknown
    ));
    assert!(matches!(
        index.get_dependencies(&bucket("a", 1), &v(9, 9, 9)),
        Dependencies::Unknown
    ));
    let feat = Package::Feature {
        base: Bucket { name: "a".to_string(), bucket: 1 },
        feature: "missing".to_string(),
    };
    assert!(matches!(index.get_dependencies(&feat, &v(1, 0, 0)), Dependencies::Unknown));
}

#[test]
fn spanning_range_becomes_proxy_and_reprojects() {
    let mut index = Index::new();
    index.add_deps("b", v(1, 0, 0), vec![dep("d", (1, 0, 0), (4, 0, 0), &[])]);
    for ver in [(1, 0, 0), (2, 0, 0), (3, 0, 0)] {
        index.add_deps("d", v(ver.0, ver.1, ver.2), vec![]);
    }
    // The mandatory edge spans buckets 1 to 3, so it must come out as a
    // proxy with an unrestricted placeholder range.
    let proxy = match index.get_dependencies(&bucket("b", 1), &v(1, 0, 0)) {
        Dependencies::Known(edges) => {
            assert_eq!(edges.len(), 1);
            assert_eq!(edges[0].1.inner, Range::<SemVer>::any());
            match &edges[0].0 {
                Package::Proxy { source, source_version, target, feature } => {
                    assert_eq!(source.name, "b");
                    assert_eq!(source.bucket, 1);
                    assert_eq!(*source_version, v(1, 0, 0));
                    assert_eq!(target, "d");
                    assert!(feature.is_none());
                }
                other => panic!("expected a proxy edge, got {:?}", other),
            }
            edges.into_iter().next().unwrap().0
        }
        Dependencies::Unknown => panic!("record should be known"),
    };
    // The proxy offers one candidate per bucket of `d` within the range.
    assert_eq!(index.list_versions(&proxy), vec![v(3, 0, 0), v(2, 0, 0), v(1, 0, 0)]);
    // Re-projecting the proxy at a chosen version yields exactly one edge
    // whose range is the original range cut down to that bucket.
    match index.get_dependencies(&proxy, &v(3, 0, 0)) {
        Dependencies::Known(edges) => {
            assert_eq!(edges.len(), 1);
            assert_eq!(edges[0].0, bucket("d", 3));
            let expected = Range::<SemVer>::between((3, 0, 0), (4, 0, 0))
                .intersection(&Range::between((1, 0, 0), (4, 0, 0)));
            assert_eq!(edges[0].1.inner, expected);
        }
        Dependencies::Unknown => panic!("proxy should reproject"),
    }
    // A proxy version in bucket 2 projects to bucket 2 of the target.
    match index.get_dependencies(&proxy, &v(2, 0, 0)) {
        Dependencies::Known(edges) => {
            assert_eq!(edges[0].0, bucket("d", 2));
            assert_eq!(edges[0].1.inner, Range::<SemVer>::between((2, 0, 0), (3, 0, 0)));
        }
        Dependencies::Unknown => panic!("proxy should reproject"),
    }
}

#[test]
fn narrow_range_becomes_direct_bucket_edge() {
    let mut index = Index::new();
    index.add_deps("c", v(1, 0, 0), vec![dep("d", (1, 0, 0), (2, 0, 0), &[])]);
    match index.get_dependencies(&bucket("c", 1), &v(1, 0, 0)) {
        Dependencies::Known(edges) => {
            assert_eq!(edges.len(), 1);
            assert_eq!(edges[0].0, bucket("d", 1));
            assert_eq!(edges[0].1.inner, Range::<SemVer>::between((1, 0, 0), (2, 0, 0)));
        }
        Dependencies::Unknown => panic!("record should be known"),
    }
}

#[test]
fn requested_features_replace_the_base_edge() {
    let mut index = Index::new();
    index.add_deps("c", v(1, 0, 0), vec![dep("d", (1, 0, 0), (2, 0, 0), &["alpha", "beta"])]);
    match index.get_dependencies(&bucket("c", 1), &v(1, 0, 0)) {
        Dependencies::Known(edges) => {
            // One edge per requested feature, and no plain base edge.
            assert_eq!(edges.len(), 2);
            for (edge, feat) in edges.iter().zip(["alpha", "beta"]) {
                match &edge.0 {
                    Package::Feature { base, feature } => {
                        assert_eq!(base.name, "d");
                        assert_eq!(base.bucket, 1);
                        assert_eq!(feature, feat);
                    }
                    other => panic!("expected a feature edge, got {:?}", other),
                }
            }
        }
        Dependencies::Unknown => panic!("record should be known"),
    }
}

#[test]
fn feature_edges_pin_the_base_version() {
    let mut index = Index::new();
    index.add_feature("d", v(1, 2, 0), "alpha", vec![dep("e", (1, 0, 0), (2, 0, 0), &[])]);
    let feat = Package::Feature {
        base: Bucket { name: "d".to_string(), bucket: 1 },
        feature: "alpha".to_string(),
    };
    match index.get_dependencies(&feat, &v(1, 2, 0)) {
        Dependencies::Known(edges) => {
            assert_eq!(edges.len(), 2);
            assert_eq!(edges[0].0, bucket("e", 1));
            // The last edge pins the base bucket to exactly this version.
            assert_eq!(edges[1].0, bucket("d", 1));
            assert_eq!(edges[1].1.inner, Range::<SemVer>::exact((1, 2, 0)));
        }
        Dependencies::Unknown => panic!("feature should be known"),
    }
}

#[test]
fn chooses_identity_with_fewest_candidates() {
    let mut index = Index::new();
    for ver in [(1, 0, 0), (1, 1, 0), (1, 2, 0)] {
        index.add_deps("many", v(ver.0, ver.1, ver.2), vec![]);
    }
    index.add_deps("few", v(1, 0, 0), vec![]);
    let any = || {
        multiversion_features::range::range_from_bounds(
            &VersionBound::Unbounded,
            &VersionBound::Unbounded,
        )
    };
    let candidates = vec![(bucket("many", 1), any()), (bucket("few", 1), any())];
    let (idx, chosen) = index.choose_package_version(&candidates);
    assert_eq!(idx, 1);
    assert_eq!(chosen, Some(v(1, 0, 0)));
    // Ties break toward the earlier candidate; the newest version wins.
    let candidates = vec![(bucket("many", 1), any()), (bucket("many", 1), any())];
    let (idx, chosen) = index.choose_package_version(&candidates);
    assert_eq!(idx, 0);
    assert_eq!(chosen, Some(v(1, 2, 0)));
}
