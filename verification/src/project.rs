//! The projection logic: turning "dependencies of identity X at version V"
//! into edges a one-version-per-name solver understands.
//!
//! A dependency range that fits inside one bucket becomes a direct edge to
//! that bucket (or its feature); one that spans several buckets becomes an
//! edge to a synthetic proxy, which defers the bucket choice until the
//! solver picks the proxy's version.

use vstd::prelude::*;
use crate::index::{
    Index, Record, Dep, DepView, RecordView, assoc_find, dep_map_view, str_eq, sorted_desc,
    lemma_assoc_find_at, lemma_assoc_find_none,
};
use crate::package::{Package, Bucket, BucketView, PackageView};
use crate::range::{
    VersionRange, range_set, bucket_set, bucket_range, range_full, range_clone, range_contains,
    range_intersection, range_eq, range_lowest, range_exactly, range_between, full_version_set,
    singleton_version,
};
use crate::version::Semver;

verus! {

// ---------------------------------------------------------------------------
// Spec-level projection
// ---------------------------------------------------------------------------
/// The bucket that contains every version of the set, if there is one and
/// the set is nonempty.
pub open spec fn spec_single_bucket(vs: Set<Semver>) -> Option<u32> {
    if (exists|v: Semver| vs.contains(v)) && (forall|v: Semver, w: Semver|
        vs.contains(v) && vs.contains(w) ==> v.major == w.major) {
        Option::Some((choose|v: Semver| vs.contains(v)).major)
    } else {
        Option::None
    }
}

/// The versions of `s` whose major component is `b`, in order.
pub open spec fn filter_bucket(s: Seq<Semver>, b: u32) -> Seq<Semver>
    decreases s.len(),
{
    if s.len() == 0 {
        Seq::empty()
    } else {
        filter_bucket(s.drop_last(), b) + (if s.last().major == b {
            seq![s.last()]
        } else {
            Seq::empty()
        })
    }
}

/// The versions of `s` admitted by the set `vs`, in order.
pub open spec fn filter_in(s: Seq<Semver>, vs: Set<Semver>) -> Seq<Semver>
    decreases s.len(),
{
    if s.len() == 0 {
        Seq::empty()
    } else {
        filter_in(s.drop_last(), vs) + (if vs.contains(s.last()) {
            seq![s.last()]
        } else {
            Seq::empty()
        })
    }
}

/// The first version of `s` admitted by the set `vs`.
pub open spec fn first_in(s: Seq<Semver>, vs: Set<Semver>) -> Option<Semver>
    decreases s.len(),
{
    if s.len() == 0 {
        Option::None
    } else if vs.contains(s[0]) {
        Option::Some(s[0])
    } else {
        first_in(s.drop_first(), vs)
    }
}

/// Collapse a version sequence to one version per run of equal buckets:
/// a version is kept exactly when it opens the sequence or differs in
/// bucket from its predecessor.  On a monotonic input this keeps the first
/// version encountered of every bucket.
pub open spec fn spec_collapse(s: Seq<Semver>) -> Seq<Semver>
    decreases s.len(),
{
    if s.len() <= 1 {
        s
    } else {
        spec_collapse(s.drop_last()) + (if s[s.len() - 2].major == s.last().major {
            Seq::empty()
        } else {
            seq![s.last()]
        })
    }
}

/// One projected dependency edge: an identity and the set of versions of it
/// that the edge accepts.
pub open spec fn base_edge(src: BucketView, v: Semver, name: Seq<char>, d: DepView) -> (
    PackageView,
    Set<Semver>,
) {
    match spec_single_bucket(d.versions) {
        Option::Some(b) => (PackageView::Bucket { name, bucket: b }, d.versions),
        Option::None => (
            PackageView::Proxy {
                source_name: src.name,
                source_bucket: src.bucket,
                source_version: v,
                target: name,
                feature: Option::None,
            },
            full_version_set(),
        ),
    }
}

/// The edge projected for one requested feature of a dependency.
pub open spec fn feature_edge(
    src: BucketView,
    v: Semver,
    name: Seq<char>,
    d: DepView,
    feat: Seq<char>,
) -> (PackageView, Set<Semver>) {
    match spec_single_bucket(d.versions) {
        Option::Some(b) => (PackageView::Feature { name, bucket: b, feature: feat }, d.versions),
        Option::None => (
            PackageView::Proxy {
                source_name: src.name,
                source_bucket: src.bucket,
                source_version: v,
                target: name,
                feature: Option::Some(feat),
            },
            full_version_set(),
        ),
    }
}

/// The edges projected for one stored dependency: one per requested
/// feature, or a single base edge when no feature is requested.  A range
/// within a single bucket projects to a direct edge carrying that range; a
/// range spanning several buckets projects to a proxy edge with an
/// unrestricted placeholder range.
pub open spec fn dep_edges(src: BucketView, v: Semver, name: Seq<char>, d: DepView) -> Seq<
    (PackageView, Set<Semver>),
> {
    if d.features.len() == 0 {
        seq![base_edge(src, v, name, d)]
    } else {
        Seq::new(d.features.len(), |t: int| feature_edge(src, v, name, d, d.features[t]))
    }
}

/// The edges projected for a whole dependency map, in its order.
pub open spec fn record_edges(src: BucketView, v: Semver, deps: Seq<(Seq<char>, DepView)>) -> Seq<
    (PackageView, Set<Semver>),
>
    decreases deps.len(),
{
    if deps.len() == 0 {
        Seq::empty()
    } else {
        record_edges(src, v, deps.drop_last()) + dep_edges(
            src,
            v,
            deps.last().0,
            deps.last().1,
        )
    }
}

/// The entry of a record for `target`: its mandatory entry if there is
/// one, else the first entry for `target` among its optional feature maps.
pub open spec fn find_optional_entry(
    opt: Seq<(Seq<char>, Seq<(Seq<char>, DepView)>)>,
    target: Seq<char>,
) -> Option<DepView>
    decreases opt.len(),
{
    if opt.len() == 0 {
        Option::None
    } else {
        match assoc_find(opt[0].1, target) {
            Option::Some(d) => Option::Some(d),
            Option::None => find_optional_entry(opt.drop_first(), target),
        }
    }
}

pub open spec fn find_entry(rec: RecordView, target: Seq<char>) -> Option<DepView> {
    match assoc_find(rec.mandatory, target) {
        Option::Some(d) => Option::Some(d),
        Option::None => find_optional_entry(rec.optional, target),
    }
}

/// The dependency entry a proxy's source holds for the proxy's target.
pub open spec fn source_entry(
    idx: Index,
    source_name: Seq<char>,
    source_version: Semver,
    target: Seq<char>,
) -> Option<DepView> {
    match idx.spec_record(source_name, source_version) {
        Option::None => Option::None,
        Option::Some(rec) => find_entry(rec, target),
    }
}

/// The candidate versions an identity offers, newest first: for a bucket or
/// feature, the registered versions in the bucket; for a proxy, one
/// representative per bucket of the target compatible with the original
/// edge.
pub open spec fn spec_list_versions(idx: Index, p: PackageView) -> Seq<Semver> {
    match p {
        PackageView::Bucket { name, bucket } => filter_bucket(idx.spec_versions_of(name), bucket),
        PackageView::Feature { name, bucket, .. } => filter_bucket(
            idx.spec_versions_of(name),
            bucket,
        ),
        PackageView::Proxy { source_name, source_version, target, .. } => {
            match source_entry(idx, source_name, source_version, target) {
                Option::None => Seq::empty(),
                Option::Some(d) => spec_collapse(
                    filter_in(idx.spec_versions_of(target), d.versions),
                ),
            }
        },
    }
}

/// The dependency edges of an identity at a version, or `None` for any
/// absence: unknown package, unknown version, unknown feature, or a proxy
/// whose source no longer holds an entry for its target.
pub open spec fn spec_get_dependencies(idx: Index, p: PackageView, v: Semver) -> Option<
    Seq<(PackageView, Set<Semver>)>,
> {
    match p {
        PackageView::Bucket { name, bucket } => match idx.spec_record(name, v) {
            Option::None => Option::None,
            Option::Some(rec) => Option::Some(
                record_edges(BucketView { name, bucket }, v, rec.mandatory),
            ),
        },
        PackageView::Proxy { source_name, source_bucket, source_version, target, feature } => {
            match source_entry(idx, source_name, source_version, target) {
                Option::None => Option::None,
                Option::Some(d) => {
                    let pkg = match feature {
                        Option::None => PackageView::Bucket { name: target, bucket: v.major },
                        Option::Some(f) => PackageView::Feature {
                            name: target,
                            bucket: v.major,
                            feature: f,
                        },
                    };
                    Option::Some(seq![(pkg, bucket_set(v.major).intersect(d.versions))])
                },
            }
        },
        PackageView::Feature { name, bucket, feature } => match idx.spec_record(name, v) {
            Option::None => Option::None,
            Option::Some(rec) => match assoc_find(rec.optional, feature) {
                Option::None => Option::None,
                Option::Some(fdeps) => Option::Some(
                    record_edges(BucketView { name, bucket }, v, fdeps).push(
                        (PackageView::Bucket { name, bucket }, singleton_version(v)),
                    ),
                ),
            },
        },
    }
}

/// The answer of the projector: the projected edges, or the one "Unknown"
/// signal that stands for every absence.
pub enum Dependencies {
    Known(Vec<(Package, VersionRange)>),
    Unknown,
}

pub open spec fn edges_view(s: Seq<(Package, VersionRange)>) -> Seq<(PackageView, Set<Semver>)> {
    s.map_values(|e: (Package, VersionRange)| (e.0@, range_set(e.1)))
}


// ---------------------------------------------------------------------------
// Executable projection
// ---------------------------------------------------------------------------
/// The bucket a version belongs to: its major component.
pub fn bucket_of(v: &Semver) -> (b: u32)
    ensures
        b == v.major,
{
    v.major
}

/// Collapse a version sequence to one version per run of equal buckets.
/// On a monotonic input (as the registry hands out) this keeps the first
/// version encountered of every bucket it spans.
#[verifier::loop_isolation(false)]
pub fn bucket_versions(versions: &Vec<Semver>) -> (r: Vec<Semver>)
    ensures
        r@ == spec_collapse(versions@),
{
    let mut out: Vec<Semver> = Vec::new();
    let n = versions.len();
    let mut i: usize = 0;
    while i < n
        invariant
            0 <= i <= n,
            out@ == spec_collapse(versions@.take(i as int)),
        decreases n - i,
    {
        let ghost pre = versions@.take(i + 1);
        proof {
            assert(pre.drop_last() =~= versions@.take(i as int));
            assert(pre.last() == versions@[i as int]);
            if i > 0 {
                assert(pre[pre.len() - 2] == versions@[i - 1]);
            }
        }
        if i == 0 {
            out.push(versions[i]);
            proof {
                assert(out@ =~= spec_collapse(pre));
            }
        } else if versions[i - 1].major != versions[i].major {
            out.push(versions[i]);
            proof {
                assert(out@ =~= spec_collapse(pre));
            }
        } else {
            proof {
                assert(out@ =~= spec_collapse(pre));
            }
        }
        i += 1;
    }
    proof {
        assert(versions@.take(n as int) =~= versions@);
    }
    out
}

/// Decide whether every version a range admits has the same major
/// component.  Returns that bucket, or `None` when the range is empty or
/// crosses a bucket boundary.
pub fn single_bucket_spanned(range: &VersionRange) -> (r: Option<u32>)
    ensures
        r == spec_single_bucket(range_set(*range)),
{
    let ghost vs = range_set(*range);
    match range_lowest(range) {
        Option::None => {
            proof {
                assert(forall|v: Semver| !vs.contains(v));
            }
            Option::None
        },
        Option::Some(low) => {
            if low.major == u32::MAX {
                proof {
                    assert forall|v: Semver, w: Semver|
                        vs.contains(v) && vs.contains(w) implies v.major == w.major by {
                        assert(low.spec_le(v) && low.spec_le(w));
                    }
                    let c = choose|v: Semver| vs.contains(v);
                    assert(low.spec_le(c));
                    assert(c.major == u32::MAX);
                }
                Option::Some(u32::MAX)
            } else {
                let hi = Semver::new(low.major + 1, 0, 0);
                let bucket = range_between_bucket(range, &low, &hi);
                bucket
            }
        },
    }
}

/// The bucket test for a range whose lowest version is `low`, with
/// `hi = (low.major + 1, 0, 0)`: the range fits in `low`'s bucket exactly
/// when intersecting it with `[low, hi)` gives the range back.
#[verifier::loop_isolation(false)]
fn range_between_bucket(range: &VersionRange, low: &Semver, hi: &Semver) -> (r: Option<u32>)
    requires
        low.major < u32::MAX,
        *hi == (Semver { major: (low.major + 1) as u32, minor: 0u32, patch: 0u32 }),
        range_set(*range).contains(*low),
        forall|w: Semver| #[trigger] range_set(*range).contains(w) ==> low.spec_le(w),
    ensures
        r == spec_single_bucket(range_set(*range)),
{
    let ghost vs = range_set(*range);
    let br = range_between(low, hi);
    let inter = range_intersection(range, &br);
    if range_eq(range, &inter) {
        proof {
            assert forall|v: Semver, w: Semver|
                vs.contains(v) && vs.contains(w) implies v.major == w.major by {
                assert(range_set(inter).contains(v) && range_set(inter).contains(w));
                assert(range_set(br).contains(v) && range_set(br).contains(w));
                assert(low.spec_le(v) && v.spec_lt(*hi));
                assert(low.spec_le(w) && w.spec_lt(*hi));
            }
            let c = choose|v: Semver| vs.contains(v);
            assert(range_set(br).contains(c));
            assert(c.major == low.major);
        }
        Option::Some(low.major)
    } else {
        proof {
            assert(!(vs =~= range_set(inter)));
            let v = choose|v: Semver| vs.contains(v) != range_set(inter).contains(v);
            assert(vs.contains(v) && !range_set(br).contains(v));
            assert(low.spec_le(v) && !v.spec_lt(*hi));
            assert(v.major > low.major);
            assert(vs.contains(*low) && vs.contains(v) && low.major != v.major);
        }
        Option::None
    }
}

/// The first entry for `target` in a dependency map.
#[verifier::loop_isolation(false)]
pub fn find_dep<'a>(m: &'a Vec<(String, Dep)>, target: &str) -> (r: Option<&'a Dep>)
    ensures
        match r {
            Option::Some(d) => assoc_find(dep_map_view(m@), target@) == Option::Some(d@),
            Option::None => assoc_find(dep_map_view(m@), target@) is None,
        },
{
    let n = m.len();
    let mut i: usize = 0;
    while i < n && !str_eq(m[i].0.as_str(), target)
        invariant
            n == m@.len(),
            0 <= i <= n,
            forall|j: int| 0 <= j < i ==> dep_map_view(m@)[j].0 != target@,
        decreases n - i,
    {
        i += 1;
    }
    if i < n {
        proof {
            lemma_assoc_find_at(dep_map_view(m@), target@, i as int);
        }
        Option::Some(&m[i].1)
    } else {
        proof {
            lemma_assoc_find_none(dep_map_view(m@), target@);
        }
        Option::None
    }
}

/// The record's entry for `target`: mandatory first, then the optional
/// feature maps in order.
#[verifier::loop_isolation(false)]
pub fn find_record_entry<'a>(rec: &'a Record, target: &str) -> (r: Option<&'a Dep>)
    ensures
        match r {
            Option::Some(d) => find_entry(rec@, target@) == Option::Some(d@),
            Option::None => find_entry(rec@, target@) is None,
        },
{
    match find_dep(&rec.mandatory, target) {
        Option::Some(d) => Option::Some(d),
        Option::None => {
            let n = rec.optional.len();
            let ghost optv = rec@.optional;
            proof {
                assert(optv.skip(0) =~= optv);
            }
            let mut i: usize = 0;
            while i < n
                invariant
                    n == rec.optional@.len(),
                    0 <= i <= n,
                    find_optional_entry(optv, target@) == find_optional_entry(
                        optv.skip(i as int),
                        target@,
                    ),
                decreases n - i,
            {
                proof {
                    assert(optv.skip(i as int)[0] == optv[i as int]);
                    assert(optv.skip(i as int).drop_first() =~= optv.skip(i + 1));
                }
                match find_dep(&rec.optional[i].1, target) {
                    Option::Some(d) => {
                        return Option::Some(d);
                    },
                    Option::None => {},
                }
                i += 1;
            }
            proof {
                assert(optv.skip(n as int) =~= Seq::<
                    (Seq<char>, Seq<(Seq<char>, DepView)>),
                >::empty());
            }
            Option::None
        },
    }
}

/// The first optional map for `feature` in a record.
#[verifier::loop_isolation(false)]
pub fn find_feature_deps<'a>(rec: &'a Record, feature: &str) -> (r: Option<
    &'a Vec<(String, Dep)>,
>)
    ensures
        match r {
            Option::Some(m) => assoc_find(rec@.optional, feature@) == Option::Some(
                dep_map_view(m@),
            ),
            Option::None => assoc_find(rec@.optional, feature@) is None,
        },
{
    let n = rec.optional.len();
    let mut i: usize = 0;
    while i < n && !str_eq(rec.optional[i].0.as_str(), feature)
        invariant
            n == rec.optional@.len(),
            0 <= i <= n,
            forall|j: int| 0 <= j < i ==> rec@.optional[j].0 != feature@,
        decreases n - i,
    {
        i += 1;
    }
    if i < n {
        proof {
            lemma_assoc_find_at(rec@.optional, feature@, i as int);
        }
        Option::Some(&rec.optional[i].1)
    } else {
        proof {
            lemma_assoc_find_none(rec@.optional, feature@);
        }
        Option::None
    }
}

fn dup_bucket(b: &Bucket) -> (r: Bucket)
    ensures
        r == *b,
{
    let r = Bucket { name: b.name.clone(), bucket: b.bucket };
    proof {
        assert(r.name == b.name && r.bucket == b.bucket);
    }
    r
}

/// Project one dependency map into solver edges, in its order: per entry,
/// one edge per requested feature, or one base edge when none is
/// requested.
#[verifier::loop_isolation(false)]
pub fn from_deps(pkg: &Bucket, version: &Semver, deps: &Vec<(String, Dep)>) -> (r: Vec<
    (Package, VersionRange),
>)
    ensures
        edges_view(r@) == record_edges(pkg@, *version, dep_map_view(deps@)),
{
    let mut out: Vec<(Package, VersionRange)> = Vec::new();
    let n = deps.len();
    let ghost dm = dep_map_view(deps@);
    let mut i: usize = 0;
    proof {
        assert(edges_view(out@) =~= record_edges(pkg@, *version, dm.take(0)));
    }
    while i < n
        invariant
            0 <= i <= n,
            n == deps@.len(),
            edges_view(out@) == record_edges(pkg@, *version, dm.take(i as int)),
        decreases n - i,
    {
        let name = &deps[i].0;
        let d = &deps[i].1;
        let ghost dv = d@;
        proof {
            assert(dm[i as int] == (name@, dv));
            assert(dm.take(i + 1).drop_last() =~= dm.take(i as int));
            assert(dm.take(i + 1).last() == dm[i as int]);
        }
        let sbs = single_bucket_spanned(&d.range);
        let fcount = d.features.len();
        if fcount == 0 {
            let edge: (Package, VersionRange) = match sbs {
                Option::Some(b) => (
                    Package::Bucket(Bucket { name: name.clone(), bucket: b }),
                    range_clone(&d.range),
                ),
                Option::None => (
                    Package::Proxy {
                        source: dup_bucket(pkg),
                        source_version: *version,
                        target: name.clone(),
                        feature: Option::None,
                    },
                    range_full(),
                ),
            };
            proof {
                assert((edge.0@, range_set(edge.1)) == base_edge(pkg@, *version, name@, dv));
            }
            out.push(edge);
            proof {
                assert(dep_edges(pkg@, *version, name@, dv) =~= seq![
                    base_edge(pkg@, *version, name@, dv),
                ]);
                assert(edges_view(out@) =~= record_edges(pkg@, *version, dm.take(i + 1)));
            }
        } else {
            let ghost fe = Seq::new(
                dv.features.len(),
                |t: int| feature_edge(pkg@, *version, name@, dv, dv.features[t]),
            );
            let mut k: usize = 0;
            while k < fcount
                invariant
                    0 <= k <= fcount,
                    fcount == d.features@.len(),
                    edges_view(out@) == record_edges(pkg@, *version, dm.take(i as int))
                        + fe.take(k as int),
                decreases fcount - k,
            {
                let feat = &d.features[k];
                proof {
                    assert(dv.features[k as int] == feat@);
                }
                let edge: (Package, VersionRange) = match sbs {
                    Option::Some(b) => (
                        Package::Feature {
                            base: Bucket { name: name.clone(), bucket: b },
                            feature: feat.clone(),
                        },
                        range_clone(&d.range),
                    ),
                    Option::None => (
                        Package::Proxy {
                            source: dup_bucket(pkg),
                            source_version: *version,
                            target: name.clone(),
                            feature: Option::Some(feat.clone()),
                        },
                        range_full(),
                    ),
                };
                proof {
                    assert(fe[k as int] == feature_edge(pkg@, *version, name@, dv, feat@));
                    assert(edge.0@ == feature_edge(pkg@, *version, name@, dv, feat@).0);
                    assert(range_set(edge.1) == feature_edge(pkg@, *version, name@, dv, feat@).1);
                    assert((edge.0@, range_set(edge.1)) == fe[k as int]);
                    assert(fe.take(k + 1) =~= fe.take(k as int).push(fe[k as int]));
                }
                let ghost prev = out@;
                let ghost ev = (edge.0@, range_set(edge.1));
                out.push(edge);
                proof {
                    assert(edges_view(out@) =~= edges_view(prev).push(ev));
                    assert(edges_view(prev).push(ev) =~= record_edges(
                        pkg@,
                        *version,
                        dm.take(i as int),
                    ) + fe.take(k + 1));
                }
                k += 1;
            }
            proof {
                assert(fe.take(fcount as int) =~= fe);
                assert(dep_edges(pkg@, *version, name@, dv) == fe);
                assert(edges_view(out@) =~= record_edges(pkg@, *version, dm.take(i + 1)));
            }
        }
        i += 1;
    }
    proof {
        assert(dm.take(n as int) =~= dm);
    }
    out
}


proof fn lemma_first_in_at(s: Seq<Semver>, vs: Set<Semver>, i: int)
    requires
        0 <= i < s.len(),
        vs.contains(s[i]),
        forall|j: int| 0 <= j < i ==> !vs.contains(#[trigger] s[j]),
    ensures
        first_in(s, vs) == Option::Some(s[i]),
    decreases s.len(),
{
    if i > 0 {
        assert(s.drop_first()[i - 1] == s[i]);
        assert forall|j: int| 0 <= j < i - 1 implies !vs.contains(#[trigger] s.drop_first()[j]) by {
            assert(s.drop_first()[j] == s[j + 1]);
        }
        lemma_first_in_at(s.drop_first(), vs, i - 1);
    }
}

proof fn lemma_first_in_none(s: Seq<Semver>, vs: Set<Semver>)
    requires
        forall|j: int| 0 <= j < s.len() ==> !vs.contains(#[trigger] s[j]),
    ensures
        first_in(s, vs) is None,
    decreases s.len(),
{
    if s.len() > 0 {
        assert forall|j: int| 0 <= j < s.drop_first().len() implies !vs.contains(
            #[trigger] s.drop_first()[j],
        ) by {
            assert(s.drop_first()[j] == s[j + 1]);
        }
        lemma_first_in_none(s.drop_first(), vs);
    }
}

impl Index {
    /// The registered versions of `name` in bucket `bucket`, newest first.
    #[verifier::loop_isolation(false)]
    pub fn versions_in_bucket(&self, name: &str, bucket: u32) -> (r: Vec<Semver>)
        ensures
            r@ == filter_bucket(self.spec_versions_of(name@), bucket),
    {
        let avail = self.available_versions(name);
        let mut out: Vec<Semver> = Vec::new();
        let n = avail.len();
        let mut i: usize = 0;
        proof {
            assert(avail@.take(0) =~= Seq::<Semver>::empty());
        }
        while i < n
            invariant
                0 <= i <= n,
                n == avail@.len(),
                out@ == filter_bucket(avail@.take(i as int), bucket),
            decreases n - i,
        {
            proof {
                assert(avail@.take(i + 1).drop_last() =~= avail@.take(i as int));
                assert(avail@.take(i + 1).last() == avail@[i as int]);
            }
            let ghost prev = out@;
            if avail[i].major == bucket {
                out.push(avail[i]);
                proof {
                    assert(out@ =~= prev + seq![avail@[i as int]]);
                }
            } else {
                proof {
                    assert(out@ =~= prev + Seq::<Semver>::empty());
                }
            }
            i += 1;
        }
        proof {
            assert(avail@.take(n as int) =~= avail@);
        }
        out
    }

    /// The candidate versions of an identity, newest first: the bucket's
    /// registered versions for a bucket or feature; for a proxy, one
    /// representative per bucket of the target compatible with the
    /// original edge (empty when the source's entry is gone).
    #[verifier::loop_isolation(false)]
    pub fn list_versions(&self, package: &Package) -> (r: Vec<Semver>)
        ensures
            r@ == spec_list_versions(*self, package@),
    {
        match package {
            Package::Bucket(b) => self.versions_in_bucket(b.name.as_str(), b.bucket),
            Package::Feature { base, .. } => self.versions_in_bucket(
                base.name.as_str(),
                base.bucket,
            ),
            Package::Proxy { source, source_version, target, .. } => {
                match self.lookup(source.name.as_str(), source_version) {
                    Option::None => {
                        let r: Vec<Semver> = Vec::new();
                        proof {
                            assert(r@ =~= spec_list_versions(*self, package@));
                        }
                        r
                    },
                    Option::Some(rec) => {
                        match find_record_entry(rec, target.as_str()) {
                            Option::None => {
                                let r: Vec<Semver> = Vec::new();
                                proof {
                                    assert(r@ =~= spec_list_versions(*self, package@));
                                }
                                r
                            },
                            Option::Some(d) => {
                                let avail = self.available_versions(target.as_str());
                                let mut kept: Vec<Semver> = Vec::new();
                                let n = avail.len();
                                let mut i: usize = 0;
                                proof {
                                    assert(avail@.take(0) =~= Seq::<Semver>::empty());
                                }
                                while i < n
                                    invariant
                                        0 <= i <= n,
                                        n == avail@.len(),
                                        kept@ == filter_in(avail@.take(i as int), d@.versions),
                                    decreases n - i,
                                {
                                    proof {
                                        assert(avail@.take(i + 1).drop_last() =~= avail@.take(
                                            i as int,
                                        ));
                                        assert(avail@.take(i + 1).last() == avail@[i as int]);
                                    }
                                    let ghost prev = kept@;
                                    if range_contains(&d.range, &avail[i]) {
                                        kept.push(avail[i]);
                                        proof {
                                            assert(kept@ =~= prev + seq![avail@[i as int]]);
                                        }
                                    } else {
                                        proof {
                                            assert(kept@ =~= prev + Seq::<Semver>::empty());
                                        }
                                    }
                                    i += 1;
                                }
                                proof {
                                    assert(avail@.take(n as int) =~= avail@);
                                }
                                bucket_versions(&kept)
                            },
                        }
                    },
                }
            },
        }
    }

    /// Project the dependency edges of `package` at `version`, or answer
    /// `Unknown` for any absence: unknown package or version, unknown
    /// feature, or a proxy whose source holds no entry for its target.
    pub fn get_dependencies(&self, package: &Package, version: &Semver) -> (r: Dependencies)
        ensures
            match r {
                Dependencies::Known(edges) => spec_get_dependencies(*self, package@, *version)
                    == Option::Some(edges_view(edges@)),
                Dependencies::Unknown => spec_get_dependencies(*self, package@, *version) is None,
            },
    {
        match package {
            Package::Bucket(b) => {
                match self.lookup(b.name.as_str(), version) {
                    Option::None => Dependencies::Unknown,
                    Option::Some(rec) => {
                        let edges = from_deps(b, version, &rec.mandatory);
                        Dependencies::Known(edges)
                    },
                }
            },
            Package::Proxy { source, source_version, target, feature } => {
                match self.lookup(source.name.as_str(), source_version) {
                    Option::None => Dependencies::Unknown,
                    Option::Some(rec) => {
                        match find_record_entry(rec, target.as_str()) {
                            Option::None => Dependencies::Unknown,
                            Option::Some(d) => {
                                let b = version.major;
                                let br = bucket_range(b);
                                let fr = range_intersection(&br, &d.range);
                                let bkt = Bucket { name: target.clone(), bucket: b };
                                let dep_pkg: Package = match feature {
                                    Option::None => Package::Bucket(bkt),
                                    Option::Some(f) => Package::Feature {
                                        base: bkt,
                                        feature: f.clone(),
                                    },
                                };
                                let ghost ev = (dep_pkg@, range_set(fr));
                                let mut edges: Vec<(Package, VersionRange)> = Vec::new();
                                edges.push((dep_pkg, fr));
                                proof {
                                    assert(edges_view(edges@) =~= seq![ev]);
                                }
                                Dependencies::Known(edges)
                            },
                        }
                    },
                }
            },
            Package::Feature { base, feature } => {
                match self.lookup(base.name.as_str(), version) {
                    Option::None => Dependencies::Unknown,
                    Option::Some(rec) => {
                        match find_feature_deps(rec, feature.as_str()) {
                            Option::None => Dependencies::Unknown,
                            Option::Some(fdeps) => {
                                let mut edges = from_deps(base, version, fdeps);
                                let ghost prev = edges@;
                                let pin_pkg = Package::Bucket(dup_bucket(base));
                                let pin_range = range_exactly(version);
                                let ghost ev = (pin_pkg@, range_set(pin_range));
                                edges.push((pin_pkg, pin_range));
                                proof {
                                    assert(edges_view(edges@) =~= edges_view(prev).push(ev));
                                }
                                Dependencies::Known(edges)
                            },
                        }
                    },
                }
            },
        }
    }
}


/// How many candidate versions of identity `p` the set `vs` admits.
pub open spec fn spec_count(idx: Index, p: PackageView, vs: Set<Semver>) -> nat {
    filter_in(spec_list_versions(idx, p), vs).len()
}

impl Index {
    /// Count the candidate versions of `p` that `range` admits.
    #[verifier::loop_isolation(false)]
    fn count_matching(&self, p: &Package, range: &VersionRange) -> (c: usize)
        ensures
            c as nat == spec_count(*self, p@, range_set(*range)),
    {
        let vs = self.list_versions(p);
        let n = vs.len();
        let mut c: usize = 0;
        let mut i: usize = 0;
        proof {
            assert(vs@.take(0) =~= Seq::<Semver>::empty());
        }
        while i < n
            invariant
                0 <= i <= n,
                n == vs@.len(),
                c <= i,
                c as nat == filter_in(vs@.take(i as int), range_set(*range)).len(),
            decreases n - i,
        {
            proof {
                assert(vs@.take(i + 1).drop_last() =~= vs@.take(i as int));
                assert(vs@.take(i + 1).last() == vs@[i as int]);
            }
            if range_contains(range, &vs[i]) {
                c += 1;
            }
            i += 1;
        }
        proof {
            assert(vs@.take(n as int) =~= vs@);
        }
        c
    }

    /// The first candidate version of `p` that `range` admits.
    #[verifier::loop_isolation(false)]
    fn first_matching(&self, p: &Package, range: &VersionRange) -> (r: Option<Semver>)
        ensures
            r == first_in(spec_list_versions(*self, p@), range_set(*range)),
    {
        let vs = self.list_versions(p);
        let n = vs.len();
        let mut i: usize = 0;
        while i < n
            invariant
                0 <= i <= n,
                n == vs@.len(),
                forall|j: int| 0 <= j < i ==> !range_set(*range).contains(#[trigger] vs@[j]),
            decreases n - i,
        {
            if range_contains(range, &vs[i]) {
                proof {
                    lemma_first_in_at(vs@, range_set(*range), i as int);
                }
                return Option::Some(vs[i]);
            }
            i += 1;
        }
        proof {
            lemma_first_in_none(vs@, range_set(*range));
        }
        Option::None
    }

    /// The selection heuristic offered to the solver: among the candidate
    /// identities, the first one with the fewest candidate versions
    /// admitted by its range, and the newest such version (or `None` when
    /// the identity has no admitted version left).
    #[verifier::loop_isolation(false)]
    pub fn choose_package_version(&self, candidates: &Vec<(Package, VersionRange)>) -> (r: (
        usize,
        Option<Semver>,
    ))
        requires
            candidates@.len() > 0,
        ensures
            (r.0 as int) < candidates@.len(),
            forall|j: int|
                0 <= j < candidates@.len() ==> spec_count(
                    *self,
                    candidates@[r.0 as int].0@,
                    range_set(candidates@[r.0 as int].1),
                ) <= spec_count(
                    *self,
                    (#[trigger] candidates@[j]).0@,
                    range_set(candidates@[j].1),
                ),
            forall|j: int|
                0 <= j < r.0 ==> spec_count(
                    *self,
                    candidates@[r.0 as int].0@,
                    range_set(candidates@[r.0 as int].1),
                ) < spec_count(
                    *self,
                    (#[trigger] candidates@[j]).0@,
                    range_set(candidates@[j].1),
                ),
            r.1 == first_in(
                spec_list_versions(*self, candidates@[r.0 as int].0@),
                range_set(candidates@[r.0 as int].1),
            ),
    {
        let n = candidates.len();
        let mut best_idx: usize = 0;
        let mut best_count = self.count_matching(&candidates[0].0, &candidates[0].1);
        let mut j: usize = 1;
        while j < n
            invariant
                n == candidates@.len(),
                0 <= best_idx < j <= n,
                best_count as nat == spec_count(
                    *self,
                    candidates@[best_idx as int].0@,
                    range_set(candidates@[best_idx as int].1),
                ),
                forall|t: int|
                    0 <= t < j ==> best_count as nat <= spec_count(
                        *self,
                        (#[trigger] candidates@[t]).0@,
                        range_set(candidates@[t].1),
                    ),
                forall|t: int|
                    0 <= t < best_idx ==> (best_count as nat) < spec_count(
                        *self,
                        (#[trigger] candidates@[t]).0@,
                        range_set(candidates@[t].1),
                    ),
            decreases n - j,
        {
            let c = self.count_matching(&candidates[j].0, &candidates[j].1);
            if c < best_count {
                best_idx = j;
                best_count = c;
            }
            j += 1;
        }
        let chosen = self.first_matching(&candidates[best_idx].0, &candidates[best_idx].1);
        (best_idx, chosen)
    }
}

// ---------------------------------------------------------------------------
// Laws of the projection
// ---------------------------------------------------------------------------
/// The single-bucket test is exact: it answers bucket `b` precisely when
/// every admitted version has major component `b`, and "spans multiple"
/// precisely when two admitted versions have different major components
/// (over any set admitting at least one version).
pub proof fn lemma_single_bucket_characterization(vs: Set<Semver>, b: u32)
    requires
        exists|v: Semver| vs.contains(v),
    ensures
        spec_single_bucket(vs) == Option::Some(b) <==> (forall|v: Semver|
            vs.contains(v) ==> v.major == b),
        (spec_single_bucket(vs) is None) <==> (exists|v: Semver, w: Semver|
            vs.contains(v) && vs.contains(w) && v.major != w.major),
{
    if forall|v: Semver, w: Semver| vs.contains(v) && vs.contains(w) ==> v.major == w.major {
        let c = choose|v: Semver| vs.contains(v);
        assert(vs.contains(c));
        assert(spec_single_bucket(vs) == Option::Some(c.major));
        if forall|v: Semver| vs.contains(v) ==> v.major == b {
            assert(c.major == b);
        }
        if spec_single_bucket(vs) == Option::Some(b) {
            assert forall|v: Semver| vs.contains(v) implies v.major == b by {
                assert(v.major == c.major);
            }
        }
    } else {
        assert(spec_single_bucket(vs) is None);
        assert(exists|v: Semver, w: Semver|
            vs.contains(v) && vs.contains(w) && v.major != w.major);
        if forall|v: Semver| vs.contains(v) ==> v.major == b {
            assert forall|v: Semver, w: Semver|
                vs.contains(v) && vs.contains(w) implies v.major == w.major by {}
        }
    }
}

/// On a strictly descending input, collapsing keeps exactly one version
/// per bucket the input spans: the first one encountered, and the result
/// lists buckets in strictly descending order.
/// Along a descending sequence, major components never increase.
proof fn lemma_desc_majors(s: Seq<Semver>)
    requires
        sorted_desc(s),
    ensures
        forall|i: int, j: int| #![trigger s[i], s[j]] 0 <= i < j < s.len() ==> s[j].major <= s[i].major,
{
    assert forall|i: int, j: int| #![trigger s[i], s[j]] 0 <= i < j < s.len() implies s[j].major
        <= s[i].major by {
        assert(s[j].spec_lt(s[i]));
    }
}

/// Some kept version represents bucket `m`.
pub open spec fn bucket_covered(s: Seq<Semver>, m: u32) -> bool {
    exists|k: int| #![trigger spec_collapse(s)[k]]
        0 <= k < spec_collapse(s).len() && spec_collapse(s)[k].major == m
}

/// The first-seen property of one kept version: it occurs in the input,
/// and no earlier input version is in its bucket.
pub open spec fn is_first_of_bucket(s: Seq<Semver>, i: int, w: Semver) -> bool {
    &&& 0 <= i < s.len()
    &&& w == s[i]
    &&& forall|j: int| #![trigger s[j]] 0 <= j < i ==> s[j].major != w.major
}

/// `w` is the first version of its bucket that `s` encounters.
pub open spec fn first_of_its_bucket(s: Seq<Semver>, w: Semver) -> bool {
    exists|i: int| is_first_of_bucket(s, i, w)
}

proof fn lemma_collapse_covers(s: Seq<Semver>)
    requires
        sorted_desc(s),
    ensures
        forall|i: int| #![trigger s[i]] 0 <= i < s.len() ==> bucket_covered(s, s[i].major),
    decreases s.len(),
{
    if s.len() <= 1 {
        assert forall|i: int| #![trigger s[i]] 0 <= i < s.len() implies bucket_covered(
            s,
            s[i].major,
        ) by {
            assert(spec_collapse(s)[0] == s[0]);
        }
    } else {
        let p = s.drop_last();
        let cp = spec_collapse(p);
        assert(sorted_desc(p)) by {
            assert forall|i: int, j: int| 0 <= i < j < p.len() implies p[j].spec_lt(p[i]) by {
                assert(p[i] == s[i] && p[j] == s[j]);
            }
        }
        lemma_collapse_covers(p);
        let last = s.last();
        assert forall|i: int| #![trigger s[i]] 0 <= i < s.len() implies bucket_covered(
            s,
            s[i].major,
        ) by {
            if i < s.len() - 1 {
                assert(p[i] == s[i]);
                assert(bucket_covered(p, p[i].major));
                let k = choose|k: int| #![trigger cp[k]]
                    0 <= k < cp.len() && cp[k].major == p[i].major;
                assert(spec_collapse(s)[k] == cp[k]);
            } else if s[s.len() - 2].major == last.major {
                assert(p[s.len() - 2] == s[s.len() - 2]);
                assert(bucket_covered(p, p[s.len() - 2].major));
                let k = choose|k: int| #![trigger cp[k]]
                    0 <= k < cp.len() && cp[k].major == p[s.len() - 2].major;
                assert(spec_collapse(s)[k] == cp[k]);
            } else {
                let k = spec_collapse(s).len() - 1;
                assert(spec_collapse(s)[k] == last);
            }
        }
    }
}

proof fn lemma_collapse_first_seen(s: Seq<Semver>)
    requires
        sorted_desc(s),
    ensures
        forall|k: int| #![trigger spec_collapse(s)[k]]
            0 <= k < spec_collapse(s).len() ==> first_of_its_bucket(s, spec_collapse(s)[k]),
    decreases s.len(),
{
    if s.len() <= 1 {
        assert forall|k: int| #![trigger spec_collapse(s)[k]]
            0 <= k < spec_collapse(s).len() implies first_of_its_bucket(
            s,
            spec_collapse(s)[k],
        ) by {
            assert(spec_collapse(s)[k] == s[0]);
            assert(is_first_of_bucket(s, 0, spec_collapse(s)[k]));
        }
    } else {
        let p = s.drop_last();
        let cp = spec_collapse(p);
        assert(sorted_desc(p)) by {
            assert forall|i: int, j: int| 0 <= i < j < p.len() implies p[j].spec_lt(p[i]) by {
                assert(p[i] == s[i] && p[j] == s[j]);
            }
        }
        lemma_collapse_first_seen(p);
        lemma_desc_majors(s);
        let last = s.last();
        assert forall|k: int| #![trigger spec_collapse(s)[k]]
            0 <= k < spec_collapse(s).len() implies first_of_its_bucket(
            s,
            spec_collapse(s)[k],
        ) by {
            if k < cp.len() {
                assert(spec_collapse(s)[k] == cp[k]);
                assert(first_of_its_bucket(p, cp[k]));
                let i = choose|i: int| is_first_of_bucket(p, i, cp[k]);
                assert(p[i] == s[i]);
                assert forall|j: int| #![trigger s[j]] 0 <= j < i implies s[j].major
                    != cp[k].major by {
                    assert(p[j] == s[j]);
                }
                assert(is_first_of_bucket(s, i, spec_collapse(s)[k]));
            } else {
                let i = s.len() - 1;
                assert(spec_collapse(s)[k] == s[i]);
                assert(last.major < s[s.len() - 2].major) by {
                    assert(last.spec_lt(s[s.len() - 2]));
                }
                assert forall|j: int| #![trigger s[j]] 0 <= j < i implies s[j].major
                    != s[i].major by {
                    assert(s[s.len() - 2].major <= s[j].major);
                }
                assert(is_first_of_bucket(s, i, spec_collapse(s)[k]));
            }
        }
    }
}

proof fn lemma_collapse_desc(s: Seq<Semver>)
    requires
        sorted_desc(s),
    ensures
        forall|k1: int, k2: int| #![trigger spec_collapse(s)[k1], spec_collapse(s)[k2]]
            0 <= k1 < k2 < spec_collapse(s).len() ==> spec_collapse(s)[k2].major < spec_collapse(
                s,
            )[k1].major,
    decreases s.len(),
{
    if s.len() > 1 {
        let p = s.drop_last();
        let cp = spec_collapse(p);
        assert(sorted_desc(p)) by {
            assert forall|i: int, j: int| 0 <= i < j < p.len() implies p[j].spec_lt(p[i]) by {
                assert(p[i] == s[i] && p[j] == s[j]);
            }
        }
        lemma_collapse_desc(p);
        lemma_collapse_first_seen(p);
        lemma_desc_majors(s);
        let last = s.last();
        assert forall|k1: int, k2: int| #![trigger spec_collapse(s)[k1], spec_collapse(s)[k2]]
            0 <= k1 < k2 < spec_collapse(s).len() implies spec_collapse(s)[k2].major
            < spec_collapse(s)[k1].major by {
            if k2 < cp.len() {
                assert(spec_collapse(s)[k1] == cp[k1] && spec_collapse(s)[k2] == cp[k2]);
            } else if spec_collapse(s).len() > cp.len() {
                assert(spec_collapse(s)[k2] == last);
                assert(spec_collapse(s)[k1] == cp[k1]);
                assert(first_of_its_bucket(p, cp[k1]));
                let i = choose|i: int| is_first_of_bucket(p, i, cp[k1]);
                assert(cp[k1] == p[i] && p[i] == s[i]);
                assert(s[s.len() - 2].major <= s[i].major);
                assert(last.major < s[s.len() - 2].major) by {
                    assert(last.spec_lt(s[s.len() - 2]));
                }
            }
        }
    }
}

/// On a strictly descending input, collapsing keeps exactly one version
/// per bucket the input spans: every input bucket is represented, each
/// kept version is the first one encountered of its bucket, and the kept
/// buckets are strictly descending (so pairwise distinct).
pub proof fn lemma_collapse_representatives(s: Seq<Semver>)
    requires
        sorted_desc(s),
    ensures
        forall|i: int| #![trigger s[i]] 0 <= i < s.len() ==> bucket_covered(s, s[i].major),
        forall|k: int| #![trigger spec_collapse(s)[k]]
            0 <= k < spec_collapse(s).len() ==> first_of_its_bucket(s, spec_collapse(s)[k]),
        forall|k1: int, k2: int| #![trigger spec_collapse(s)[k1], spec_collapse(s)[k2]]
            0 <= k1 < k2 < spec_collapse(s).len() ==> spec_collapse(s)[k2].major < spec_collapse(
                s,
            )[k1].major,
{
    lemma_collapse_covers(s);
    lemma_collapse_first_seen(s);
    lemma_collapse_desc(s);
}

/// Whatever other edges a feature identity contributes at version `v`, its
/// last edge pins the base bucket to exactly `v`: any solution that
/// selects `Feature{base, f}@v` must also select `Bucket{base}@v`.
pub proof fn lemma_feature_pins_base(
    idx: Index,
    name: Seq<char>,
    bucket: u32,
    feature: Seq<char>,
    v: Semver,
    edges: Seq<(PackageView, Set<Semver>)>,
)
    requires
        spec_get_dependencies(idx, PackageView::Feature { name, bucket, feature }, v)
            == Option::Some(edges),
    ensures
        edges.len() > 0,
        edges.last().0 == (PackageView::Bucket { name, bucket }),
        forall|w: Semver| edges.last().1.contains(w) <==> w == v,
{
}

/// Re-projecting a proxy at a chosen version yields exactly one edge, to
/// the target's bucket of that version (or that bucket's feature), whose
/// range is the original dependency range cut down to the bucket.
pub proof fn lemma_proxy_projection(
    idx: Index,
    source_name: Seq<char>,
    source_bucket: u32,
    source_version: Semver,
    target: Seq<char>,
    feature: Option<Seq<char>>,
    v: Semver,
    d: DepView,
    edges: Seq<(PackageView, Set<Semver>)>,
)
    requires
        source_entry(idx, source_name, source_version, target) == Option::Some(d),
        spec_get_dependencies(
            idx,
            PackageView::Proxy { source_name, source_bucket, source_version, target, feature },
            v,
        ) == Option::Some(edges),
    ensures
        edges.len() == 1,
        edges[0].1 == bucket_set(v.major).intersect(d.versions),
        edges[0].0 == (match feature {
            Option::None => PackageView::Bucket { name: target, bucket: v.major },
            Option::Some(f) => PackageView::Feature { name: target, bucket: v.major, feature: f },
        }),
{
}

} // verus!
