use multiversion_features::package::{Bucket, Package};
use multiversion_features::version::Semver;

fn bucket(name: &str, b: u32) -> Package {
    Package::Bucket(Bucket { name: name.to_string(), bucket: b })
}

fn feature(name: &str, b: u32, f: &str) -> Package {
    Package::Feature { base: Bucket { name: name.to_string(), bucket: b }, feature: f.to_string() }
}

#[test]
fn parse_bucket_text() {
    assert_eq!(Package::from_text("a#1").unwrap(), bucket("a", 1));
    assert_eq!(Package::from_text("some-lib#0").unwrap(), bucket("some-lib", 0));
    assert_eq!(Package::from_text("d#4294967295").unwrap(), bucket("d", u32::MAX));
}

#[test]
fn parse_feature_text() {
    assert_eq!(Package::from_text("a#1/feat").unwrap(), feature("a", 1, "feat"));
    assert_eq!(Package::from_text("d#12/alpha").unwrap(), feature("d", 12, "alpha"));
    // The feature name is opaque text: anything after the first slash.
    assert_eq!(Package::from_text("a#1/f/g").unwrap(), feature("a", 1, "f/g"));
}

#[test]
fn parse_rejects_other_shapes() {
    assert!(Package::from_text("a").is_err());
    assert!(Package::from_text("").is_err());
    assert!(Package::from_text("a#").is_err());
    assert!(Package::from_text("a#x").is_err());
    assert!(Package::from_text("a#1x").is_err());
    assert!(Package::from_text("a#/feat").is_err());
    // A leading zero is not the canonical rendering of a number.
    assert!(Package::from_text("a#01").is_err());
    // Too large for a bucket number.
    assert!(Package::from_text("a#4294967296").is_err());
}

#[test]
fn parse_then_encode_reproduces_text() {
    for text in ["a#1", "a#0", "some-lib#42/serde", "x#1/f/g", "#7", "d#4294967295/x"] {
        let p = Package::from_text(text).unwrap();
        assert_eq!(p.to_text(), text);
    }
}

#[test]
fn encode_then_parse_recovers_identity() {
    let cases = vec![bucket("a", 1), bucket("pkg", 0), feature("d", 3, "alpha"), feature("d", 3, "")];
    for p in cases {
        assert_eq!(Package::from_text(&p.to_text()).unwrap(), p);
    }
}

#[test]
fn proxy_renders_but_never_parses() {
    let proxy = Package::Proxy {
        source: Bucket { name: "b".to_string(), bucket: 1 },
        source_version: Semver { major: 1, minor: 0, patch: 0 },
        target: "d".to_string(),
        feature: None,
    };
    assert_eq!(proxy.to_text(), "b#1@1.0.0->d");
    assert!(Package::from_text(&proxy.to_text()).is_err());

    let proxy_feat = Package::Proxy {
        source: Bucket { name: "b".to_string(), bucket: 2 },
        source_version: Semver { major: 2, minor: 1, patch: 3 },
        target: "d".to_string(),
        feature: Some("alpha".to_string()),
    };
    assert_eq!(proxy_feat.to_text(), "b#2@2.1.3/alpha->d");
    assert!(Package::from_text(&proxy_feat.to_text()).is_err());
}

#[test]
fn pkg_name_of_each_variant() {
    assert_eq!(bucket("a", 1).pkg_name(), "a");
    assert_eq!(feature("d", 2, "alpha").pkg_name(), "d");
    let proxy = Package::Proxy {
        source: Bucket { name: "src".to_string(), bucket: 1 },
        source_version: Semver { major: 1, minor: 0, patch: 0 },
        target: "tgt".to_string(),
        feature: None,
    };
    assert_eq!(proxy.pkg_name(), "src");
}
