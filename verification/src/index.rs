//! The registry: package name -> ordered versions -> dependency record.
//!
//! The registry is append-only: it is built by repeated registration calls
//! and then read for the whole of a resolution.  Registering the same
//! (name, version) twice merges the records, the later registration winning
//! per target key; absence of a name or version is an answer, never an
//! error.

use vstd::prelude::*;
use vstd::string::StrSliceExecFns;
use crate::range::{VersionRange, range_set, range_from_bounds, bounds_set, VersionBound};
use crate::version::Semver;

verus! {

/// Character-wise string equality.
pub fn str_eq(a: &str, b: &str) -> (r: bool)
    ensures
        r == (a@ == b@),
{
    let na = a.unicode_len();
    let nb = b.unicode_len();
    if na != nb {
        return false;
    }
    let mut i: usize = 0;
    while i < na
        invariant
            na == a@.len(),
            na == b@.len(),
            0 <= i <= na,
            forall|j: int| 0 <= j < i ==> a@[j] == b@[j],
        decreases na - i,
    {
        if a.get_char(i) != b.get_char(i) {
            return false;
        }
        i += 1;
    }
    proof {
        assert(a@ =~= b@);
    }
    true
}

// ---------------------------------------------------------------------------
// Association sequences
// ---------------------------------------------------------------------------
/// The value at the first occurrence of key `k`, if any.
pub open spec fn assoc_find<K, V>(s: Seq<(K, V)>, k: K) -> Option<V>
    decreases s.len(),
{
    if s.len() == 0 {
        Option::None
    } else if s[0].0 == k {
        Option::Some(s[0].1)
    } else {
        assoc_find(s.drop_first(), k)
    }
}

/// Replace the value at the first occurrence of key `k`, or append the pair.
pub open spec fn assoc_upsert<K, V>(s: Seq<(K, V)>, k: K, v: V) -> Seq<(K, V)>
    decreases s.len(),
{
    if s.len() == 0 {
        seq![(k, v)]
    } else if s[0].0 == k {
        seq![(k, v)] + s.drop_first()
    } else {
        seq![s[0]] + assoc_upsert(s.drop_first(), k, v)
    }
}

pub proof fn lemma_assoc_find_at<K, V>(s: Seq<(K, V)>, k: K, i: int)
    requires
        0 <= i < s.len(),
        s[i].0 == k,
        forall|j: int| 0 <= j < i ==> s[j].0 != k,
    ensures
        assoc_find(s, k) == Option::Some(s[i].1),
    decreases s.len(),
{
    if i > 0 {
        assert(s.drop_first()[i - 1] == s[i]);
        assert forall|j: int| 0 <= j < i - 1 implies s.drop_first()[j].0 != k by {
            assert(s.drop_first()[j] == s[j + 1]);
        }
        lemma_assoc_find_at(s.drop_first(), k, i - 1);
    }
}

pub proof fn lemma_assoc_find_none<K, V>(s: Seq<(K, V)>, k: K)
    requires
        forall|j: int| 0 <= j < s.len() ==> s[j].0 != k,
    ensures
        assoc_find(s, k) is None,
    decreases s.len(),
{
    if s.len() > 0 {
        assert forall|j: int| 0 <= j < s.drop_first().len() implies s.drop_first()[j].0 != k by {
            assert(s.drop_first()[j] == s[j + 1]);
        }
        lemma_assoc_find_none(s.drop_first(), k);
    }
}

pub proof fn lemma_assoc_upsert_at<K, V>(s: Seq<(K, V)>, k: K, v: V, i: int)
    requires
        0 <= i < s.len(),
        s[i].0 == k,
        forall|j: int| 0 <= j < i ==> s[j].0 != k,
    ensures
        assoc_upsert(s, k, v) == s.update(i, (k, v)),
    decreases s.len(),
{
    if i == 0 {
        assert(seq![(k, v)] + s.drop_first() =~= s.update(0, (k, v)));
    } else {
        assert(s.drop_first()[i - 1] == s[i]);
        assert forall|j: int| 0 <= j < i - 1 implies s.drop_first()[j].0 != k by {
            assert(s.drop_first()[j] == s[j + 1]);
        }
        lemma_assoc_upsert_at(s.drop_first(), k, v, i - 1);
        assert(seq![s[0]] + s.drop_first().update(i - 1, (k, v)) =~= s.update(i, (k, v)));
    }
}

pub proof fn lemma_assoc_upsert_none<K, V>(s: Seq<(K, V)>, k: K, v: V)
    requires
        forall|j: int| 0 <= j < s.len() ==> s[j].0 != k,
    ensures
        assoc_upsert(s, k, v) == s.push((k, v)),
    decreases s.len(),
{
    if s.len() == 0 {
        assert(seq![(k, v)] =~= s.push((k, v)));
    } else {
        assert forall|j: int| 0 <= j < s.drop_first().len() implies s.drop_first()[j].0 != k by {
            assert(s.drop_first()[j] == s[j + 1]);
        }
        lemma_assoc_upsert_none(s.drop_first(), k, v);
        assert(seq![s[0]] + s.drop_first().push((k, v)) =~= s.push((k, v)));
    }
}

// ---------------------------------------------------------------------------
// Dependency records
// ---------------------------------------------------------------------------
/// One dependency edge as stored: a range of acceptable versions of the
/// target, and the feature names requested of it.
pub struct Dep {
    pub range: VersionRange,
    pub features: Vec<String>,
}

/// Mathematical value of a stored edge.
pub struct DepView {
    pub versions: Set<Semver>,
    pub features: Seq<Seq<char>>,
}

impl View for Dep {
    type V = DepView;

    open spec fn view(&self) -> DepView {
        DepView {
            versions: range_set(self.range),
            features: self.features@.map_values(|f: String| f@),
        }
    }
}

/// One dependency edge as registered: the target name, the two bounds the
/// range converter turns into a range, and the requested feature names.
pub struct DepReq {
    pub name: String,
    pub start: VersionBound,
    pub end: VersionBound,
    pub features: Vec<String>,
}

/// Mathematical value of a registration request.
pub struct DepReqView {
    pub name: Seq<char>,
    pub versions: Set<Semver>,
    pub features: Seq<Seq<char>>,
}

impl DepReqView {
    pub open spec fn dep(self) -> DepView {
        DepView { versions: self.versions, features: self.features }
    }
}

impl View for DepReq {
    type V = DepReqView;

    open spec fn view(&self) -> DepReqView {
        DepReqView {
            name: self.name@,
            versions: bounds_set(self.start, self.end),
            features: self.features@.map_values(|f: String| f@),
        }
    }
}

pub open spec fn dep_map_view(s: Seq<(String, Dep)>) -> Seq<(Seq<char>, DepView)> {
    s.map_values(|e: (String, Dep)| (e.0@, e.1@))
}

pub open spec fn reqs_view(s: Seq<DepReq>) -> Seq<DepReqView> {
    s.map_values(|r: DepReq| r@)
}

/// The dependency record of one registered version: its mandatory edges and
/// its optional per-feature edges.
pub struct Record {
    pub mandatory: Vec<(String, Dep)>,
    pub optional: Vec<(String, Vec<(String, Dep)>)>,
}

/// Mathematical value of a record.
pub struct RecordView {
    pub mandatory: Seq<(Seq<char>, DepView)>,
    pub optional: Seq<(Seq<char>, Seq<(Seq<char>, DepView)>)>,
}

impl View for Record {
    type V = RecordView;

    open spec fn view(&self) -> RecordView {
        RecordView {
            mandatory: dep_map_view(self.mandatory@),
            optional: self.optional@.map_values(
                |e: (String, Vec<(String, Dep)>)| (e.0@, dep_map_view(e.1@)),
            ),
        }
    }
}

pub open spec fn empty_record() -> RecordView {
    RecordView { mandatory: Seq::empty(), optional: Seq::empty() }
}

/// Merging a list of registration requests into a dependency map, later
/// entries winning per target key.
pub open spec fn add_edges(m: Seq<(Seq<char>, DepView)>, reqs: Seq<DepReqView>) -> Seq<
    (Seq<char>, DepView),
>
    decreases reqs.len(),
{
    if reqs.len() == 0 {
        m
    } else {
        add_edges(assoc_upsert(m, reqs[0].name, reqs[0].dep()), reqs.drop_first())
    }
}

/// What one registration call does to the record of its (name, version):
/// merge into the mandatory map, or into the map of the given feature.
pub open spec fn record_with(
    rec: RecordView,
    which: Option<Seq<char>>,
    reqs: Seq<DepReqView>,
) -> RecordView {
    match which {
        Option::None => RecordView {
            mandatory: add_edges(rec.mandatory, reqs),
            optional: rec.optional,
        },
        Option::Some(f) => {
            let prev = match assoc_find(rec.optional, f) {
                Option::None => Seq::empty(),
                Option::Some(m) => m,
            };
            RecordView {
                mandatory: rec.mandatory,
                optional: assoc_upsert(rec.optional, f, add_edges(prev, reqs)),
            }
        },
    }
}

// ---------------------------------------------------------------------------
// The index
// ---------------------------------------------------------------------------
/// The registry of known package versions and their dependency edges.
pub struct Index {
    pub packages: Vec<(String, Vec<(Semver, Record)>)>,
}

pub open spec fn versions_view(vs: Seq<(Semver, Record)>) -> Seq<(Semver, RecordView)> {
    vs.map_values(|e: (Semver, Record)| (e.0, e.1@))
}

pub open spec fn version_keys(vs: Seq<(Semver, RecordView)>) -> Seq<Semver> {
    vs.map_values(|e: (Semver, RecordView)| e.0)
}

/// Newest first, strictly: no duplicate versions.
pub open spec fn sorted_desc(s: Seq<Semver>) -> bool {
    forall|i: int, j: int| 0 <= i < j < s.len() ==> s[j].spec_lt(s[i])
}

impl View for Index {
    type V = Seq<(Seq<char>, Seq<(Semver, RecordView)>)>;

    open spec fn view(&self) -> Seq<(Seq<char>, Seq<(Semver, RecordView)>)> {
        self.packages@.map_values(
            |e: (String, Vec<(Semver, Record)>)| (e.0@, versions_view(e.1@)),
        )
    }
}

/// Inserting a version into a list kept newest-first.
pub open spec fn insert_desc(
    vs: Seq<(Semver, RecordView)>,
    v: Semver,
    rec: RecordView,
) -> Seq<(Semver, RecordView)>
    decreases vs.len(),
{
    if vs.len() == 0 {
        seq![(v, rec)]
    } else if vs[0].0.spec_lt(v) {
        seq![(v, rec)] + vs
    } else {
        seq![vs[0]] + insert_desc(vs.drop_first(), v, rec)
    }
}

proof fn lemma_insert_desc_at(vs: Seq<(Semver, RecordView)>, v: Semver, rec: RecordView, p: int)
    requires
        0 <= p <= vs.len(),
        forall|j: int| 0 <= j < p ==> !vs[j].0.spec_lt(v),
        p < vs.len() ==> vs[p].0.spec_lt(v),
    ensures
        insert_desc(vs, v, rec) == vs.insert(p, (v, rec)),
    decreases vs.len(),
{
    if vs.len() == 0 {
        assert(seq![(v, rec)] =~= vs.insert(0, (v, rec)));
    } else if p == 0 {
        assert(seq![(v, rec)] + vs =~= vs.insert(0, (v, rec)));
    } else {
        assert(!vs[0].0.spec_lt(v));
        assert forall|j: int| 0 <= j < p - 1 implies !vs.drop_first()[j].0.spec_lt(v) by {
            assert(vs.drop_first()[j] == vs[j + 1]);
        }
        if p - 1 < vs.drop_first().len() {
            assert(vs.drop_first()[p - 1] == vs[p]);
        }
        lemma_insert_desc_at(vs.drop_first(), v, rec, p - 1);
        assert(seq![vs[0]] + vs.drop_first().insert(p - 1, (v, rec)) =~= vs.insert(p, (v, rec)));
    }
}

/// What registering `reqs` at `(name, v)` does to the whole registry.
pub open spec fn spec_register(
    idx: Seq<(Seq<char>, Seq<(Semver, RecordView)>)>,
    name: Seq<char>,
    v: Semver,
    which: Option<Seq<char>>,
    reqs: Seq<DepReqView>,
) -> Seq<(Seq<char>, Seq<(Semver, RecordView)>)> {
    match assoc_find(idx, name) {
        Option::None => idx.push((name, seq![(v, record_with(empty_record(), which, reqs))])),
        Option::Some(vers) => {
            let newvers = match assoc_find(vers, v) {
                Option::None => insert_desc(vers, v, record_with(empty_record(), which, reqs)),
                Option::Some(rec) => assoc_upsert(vers, v, record_with(rec, which, reqs)),
            };
            assoc_upsert(idx, name, newvers)
        },
    }
}

impl Index {
    /// Every package's version list is strictly newest-first.
    pub open spec fn wf(self) -> bool {
        forall|i: int|
            0 <= i < self@.len() ==> sorted_desc(version_keys(#[trigger] self@[i].1))
    }

    /// The registered versions of `name`, newest first; empty if unknown.
    pub open spec fn spec_versions_of(self, name: Seq<char>) -> Seq<Semver> {
        match assoc_find(self@, name) {
            Option::None => Seq::empty(),
            Option::Some(vers) => version_keys(vers),
        }
    }

    /// The dependency record of `(name, v)`, if both are known.
    pub open spec fn spec_record(self, name: Seq<char>, v: Semver) -> Option<RecordView> {
        match assoc_find(self@, name) {
            Option::None => Option::None,
            Option::Some(vers) => assoc_find(vers, v),
        }
    }

    /// An empty registry.
    pub fn new() -> (r: Index)
        ensures
            r@ == Seq::<(Seq<char>, Seq<(Semver, RecordView)>)>::empty(),
            r.wf(),
    {
        let r = Index { packages: Vec::new() };
        proof {
            assert(r@ =~= Seq::<(Seq<char>, Seq<(Semver, RecordView)>)>::empty());
        }
        r
    }
}


/// Replace the first entry for `name`, or append one.
#[verifier::loop_isolation(false)]
fn upsert_dep(m: &mut Vec<(String, Dep)>, name: String, dep: Dep)
    ensures
        dep_map_view(final(m)@) == assoc_upsert(dep_map_view(old(m)@), name@, dep@),
{
    let n = m.len();
    let mut i: usize = 0;
    while i < n && !str_eq(m[i].0.as_str(), name.as_str())
        invariant
            n == m@.len(),
            0 <= i <= n,
            forall|j: int| 0 <= j < i ==> dep_map_view(m@)[j].0 != name@,
        decreases n - i,
    {
        i += 1;
    }
    let ghost orig = dep_map_view(m@);
    if i < n {
        proof {
            lemma_assoc_upsert_at(orig, name@, dep@, i as int);
        }
        m.remove(i);
        m.insert(i, (name, dep));
        proof {
            assert(dep_map_view(m@) =~= orig.update(i as int, (name@, dep@)));
        }
    } else {
        proof {
            lemma_assoc_upsert_none(orig, name@, dep@);
        }
        m.push((name, dep));
        proof {
            assert(dep_map_view(m@) =~= orig.push((name@, dep@)));
        }
    }
}

/// Convert each request into a stored edge and merge it in, first to last.
#[verifier::loop_isolation(false)]
fn apply_edges(m: &mut Vec<(String, Dep)>, reqs: Vec<DepReq>)
    ensures
        dep_map_view(final(m)@) == add_edges(dep_map_view(old(m)@), reqs_view(reqs@)),
{
    let ghost target = add_edges(dep_map_view(old(m)@), reqs_view(reqs@));
    let mut q = reqs;
    while q.len() > 0
        invariant
            add_edges(dep_map_view(m@), reqs_view(q@)) == target,
        decreases q.len(),
    {
        let ghost qv = reqs_view(q@);
        let req = q.remove(0);
        proof {
            assert(reqs_view(q@) =~= qv.drop_first());
            assert(qv[0] == req@);
        }
        let dep = Dep { range: range_from_bounds(&req.start, &req.end), features: req.features };
        proof {
            assert(dep@ == req@.dep());
        }
        upsert_dep(m, req.name, dep);
    }
    proof {
        assert(reqs_view(q@).len() == 0);
    }
}

impl Index {
    /// Index of the first package entry named `package`, if any, with the
    /// `assoc_find` fact established either way.
    #[verifier::loop_isolation(false)]
    fn find_package(&self, package: &str) -> (r: Option<usize>)
        ensures
            match r {
                Option::Some(i) => i < self.packages@.len() && self@[i as int].0 == package@
                    && assoc_find(self@, package@) == Option::Some(self@[i as int].1) && (
                forall|j: int| 0 <= j < i ==> self@[j].0 != package@),
                Option::None => assoc_find(self@, package@) is None,
            },
    {
        let n = self.packages.len();
        let mut i: usize = 0;
        while i < n && !str_eq(self.packages[i].0.as_str(), package)
            invariant
                n == self.packages@.len(),
                0 <= i <= n,
                forall|j: int| 0 <= j < i ==> self@[j].0 != package@,
            decreases n - i,
        {
            i += 1;
        }
        if i < n {
            proof {
                lemma_assoc_find_at(self@, package@, i as int);
            }
            Option::Some(i)
        } else {
            proof {
                lemma_assoc_find_none(self@, package@);
            }
            Option::None
        }
    }

    /// The registered versions of `package`, newest first; empty if the
    /// package is unknown.
    #[verifier::loop_isolation(false)]
    pub fn available_versions(&self, package: &str) -> (r: Vec<Semver>)
        ensures
            r@ == self.spec_versions_of(package@),
            self.wf() ==> sorted_desc(r@),
    {
        match self.find_package(package) {
            Option::None => {
                let r: Vec<Semver> = Vec::new();
                proof {
                    assert(r@ =~= self.spec_versions_of(package@));
                }
                r
            },
            Option::Some(i) => {
                let vers = &self.packages[i].1;
                let m = vers.len();
                let mut out: Vec<Semver> = Vec::new();
                let ghost keys = version_keys(self@[i as int].1);
                proof {
                    assert(keys.len() == m);
                }
                let mut k: usize = 0;
                while k < m
                    invariant
                        0 <= k <= m,
                        out@ == keys.take(k as int),
                    decreases m - k,
                {
                    let v = vers[k].0;
                    proof {
                        assert(keys[k as int] == v);
                        assert(keys.take(k as int + 1) =~= keys.take(k as int).push(v));
                    }
                    out.push(v);
                    k += 1;
                }
                proof {
                    assert(keys.take(m as int) =~= keys);
                }
                out
            },
        }
    }

    /// The dependency record of `(package, version)`, or `None` when either
    /// is unknown.
    #[verifier::loop_isolation(false)]
    pub fn lookup(&self, package: &str, version: &Semver) -> (r: Option<&Record>)
        ensures
            match r {
                Option::Some(rec) => self.spec_record(package@, *version) == Option::Some(rec@),
                Option::None => self.spec_record(package@, *version) is None,
            },
    {
        match self.find_package(package) {
            Option::None => Option::None,
            Option::Some(i) => {
                let vers = &self.packages[i].1;
                let ghost vv = self@[i as int].1;
                let m = vers.len();
                let mut k: usize = 0;
                while k < m && !(vers[k].0 == *version)
                    invariant
                        m == vers@.len(),
                        vv == versions_view(vers@),
                        0 <= k <= m,
                        forall|j: int| 0 <= j < k ==> vv[j].0 != *version,
                    decreases m - k,
                {
                    k += 1;
                }
                if k < m {
                    proof {
                        lemma_assoc_find_at(vv, *version, k as int);
                    }
                    Option::Some(&vers[k].1)
                } else {
                    proof {
                        lemma_assoc_find_none(vv, *version);
                    }
                    Option::None
                }
            },
        }
    }
}


/// The ghost value of an optional feature name.
pub open spec fn feature_opt_view(o: Option<&str>) -> Option<Seq<char>> {
    match o {
        Option::None => Option::None,
        Option::Some(f) => Option::Some(f@),
    }
}

/// Inserting a fresh version at its place keeps the list strictly
/// newest-first.
proof fn lemma_sorted_insert(keys: Seq<Semver>, v: Semver, p: int)
    requires
        sorted_desc(keys),
        0 <= p <= keys.len(),
        forall|j: int| 0 <= j < p ==> !keys[j].spec_lt(v),
        p < keys.len() ==> keys[p].spec_lt(v),
        forall|j: int| 0 <= j < keys.len() ==> keys[j] != v,
    ensures
        sorted_desc(keys.insert(p, v)),
{
    let r = keys.insert(p, v);
    assert forall|i: int, j: int| 0 <= i < j < r.len() implies r[j].spec_lt(r[i]) by {
        if i < p && j == p {
            assert(r[i] == keys[i]);
            assert(!keys[i].spec_lt(v) && keys[i] != v);
        } else if i == p && j > p {
            assert(r[j] == keys[j - 1]);
            assert(keys[p].spec_lt(v));
            if j - 1 > p {
                assert(keys[j - 1].spec_lt(keys[p]));
            }
        } else if i < p && j > p {
            assert(r[i] == keys[i] && r[j] == keys[j - 1]);
            assert(keys[j - 1].spec_lt(keys[i]));
        } else if i > p {
            assert(r[i] == keys[i - 1] && r[j] == keys[j - 1]);
        } else if j < p {
            assert(r[i] == keys[i] && r[j] == keys[j]);
        }
    }
}

/// Merge a registration into one record.
#[verifier::loop_isolation(false)]
fn record_apply(rec: &mut Record, which: Option<&str>, deps: Vec<DepReq>)
    ensures
        final(rec)@ == record_with(old(rec)@, feature_opt_view(which), reqs_view(deps@)),
{
    match which {
        Option::None => {
            apply_edges(&mut rec.mandatory, deps);
        },
        Option::Some(f) => {
            let ghost optv = old(rec)@.optional;
            let n = rec.optional.len();
            let mut i: usize = 0;
            while i < n && !str_eq(rec.optional[i].0.as_str(), f)
                invariant
                    n == rec.optional@.len(),
                    0 <= i <= n,
                    rec == old(rec),
                    forall|j: int| 0 <= j < i ==> optv[j].0 != f@,
                decreases n - i,
            {
                i += 1;
            }
            if i < n {
                proof {
                    lemma_assoc_find_at(optv, f@, i as int);
                }
                let (fname, mut fmap) = rec.optional.remove(i);
                let ghost prev = dep_map_view(fmap@);
                apply_edges(&mut fmap, deps);
                let ghost merged = dep_map_view(fmap@);
                proof {
                    lemma_assoc_upsert_at(optv, f@, merged, i as int);
                }
                rec.optional.insert(i, (fname, fmap));
                proof {
                    assert(rec@.optional =~= optv.update(i as int, (f@, merged)));
                }
            } else {
                proof {
                    lemma_assoc_find_none(optv, f@);
                }
                let mut fmap: Vec<(String, Dep)> = Vec::new();
                proof {
                    assert(dep_map_view(fmap@) =~= Seq::<(Seq<char>, DepView)>::empty());
                }
                apply_edges(&mut fmap, deps);
                let ghost merged = dep_map_view(fmap@);
                proof {
                    lemma_assoc_upsert_none(optv, f@, merged);
                }
                rec.optional.push((f.to_owned(), fmap));
                proof {
                    assert(rec@.optional =~= optv.push((f@, merged)));
                }
            }
        },
    }
}

impl Index {
    /// Register dependency edges for `(package, version)`: into the
    /// mandatory map when `which` is `None`, into the map of that optional
    /// feature otherwise.  Creates the package or version entry as needed,
    /// keeping versions newest-first; merges into an existing entry, the
    /// later registration winning per target key.
    #[verifier::loop_isolation(false)]
    fn register(&mut self, package: &str, version: Semver, which: Option<&str>, deps: Vec<DepReq>)
        requires
            old(self).wf(),
        ensures
            final(self).wf(),
            final(self)@ == spec_register(
                old(self)@,
                package@,
                version,
                feature_opt_view(which),
                reqs_view(deps@),
            ),
    {
        let ghost orig = self@;
        match self.find_package(package) {
            Option::None => {
                let mut rec = Record { mandatory: Vec::new(), optional: Vec::new() };
                proof {
                    assert(rec@.mandatory =~= empty_record().mandatory);
                    assert(rec@.optional =~= empty_record().optional);
                }
                record_apply(&mut rec, which, deps);
                let ghost recv = rec@;
                let mut vlist: Vec<(Semver, Record)> = Vec::new();
                vlist.push((version, rec));
                proof {
                    assert(versions_view(vlist@) =~= seq![(version, recv)]);
                }
                self.packages.push((package.to_owned(), vlist));
                proof {
                    assert(self@ =~= orig.push((package@, seq![(version, recv)])));
                    assert forall|t: int| 0 <= t < self@.len() implies sorted_desc(
                        version_keys(#[trigger] self@[t].1),
                    ) by {
                        if t < orig.len() {
                            assert(self@[t] == orig[t]);
                        } else {
                            assert(version_keys(self@[t].1).len() == 1);
                        }
                    }
                }
            },
            Option::Some(i) => {
                let (pname, mut vers) = self.packages.remove(i);
                let ghost vv = orig[i as int].1;
                proof {
                    assert(vv == versions_view(vers@));
                }
                let m = vers.len();
                let mut k: usize = 0;
                while k < m && !(vers[k].0 == version)
                    invariant
                        m == vers@.len(),
                        0 <= k <= m,
                        forall|j: int| 0 <= j < k ==> vv[j].0 != version,
                    decreases m - k,
                {
                    k += 1;
                }
                let ghost newvv: Seq<(Semver, RecordView)>;
                if k < m {
                    proof {
                        lemma_assoc_find_at(vv, version, k as int);
                    }
                    let (v0, mut rec) = vers.remove(k);
                    record_apply(&mut rec, which, deps);
                    let ghost recv = rec@;
                    vers.insert(k, (version, rec));
                    proof {
                        lemma_assoc_upsert_at(vv, version, recv, k as int);
                        newvv = vv.update(k as int, (version, recv));
                        assert(versions_view(vers@) =~= newvv);
                        assert(version_keys(newvv) =~= version_keys(vv));
                    }
                } else {
                    proof {
                        lemma_assoc_find_none(vv, version);
                    }
                    let mut rec = Record { mandatory: Vec::new(), optional: Vec::new() };
                    proof {
                        assert(rec@.mandatory =~= empty_record().mandatory);
                        assert(rec@.optional =~= empty_record().optional);
                    }
                    record_apply(&mut rec, which, deps);
                    let ghost recv = rec@;
                    let mut pos: usize = 0;
                    while pos < m && !vers[pos].0.lt(&version)
                        invariant
                            0 <= pos <= m,
                            forall|j: int| 0 <= j < pos ==> !vv[j].0.spec_lt(version),
                        decreases m - pos,
                    {
                        pos += 1;
                    }
                    vers.insert(pos, (version, rec));
                    proof {
                        lemma_insert_desc_at(vv, version, recv, pos as int);
                        newvv = insert_desc(vv, version, recv);
                        assert(versions_view(vers@) =~= vv.insert(pos as int, (version, recv)));
                        assert(version_keys(newvv) =~= version_keys(vv).insert(
                            pos as int,
                            version,
                        ));
                        lemma_sorted_insert(version_keys(vv), version, pos as int);
                    }
                }
                self.packages.insert(i, (pname, vers));
                proof {
                    lemma_assoc_upsert_at(orig, package@, newvv, i as int);
                    assert(self@ =~= orig.update(i as int, (package@, newvv)));
                    assert forall|t: int| 0 <= t < self@.len() implies sorted_desc(
                        version_keys(#[trigger] self@[t].1),
                    ) by {
                        if t != i {
                            assert(self@[t] == orig[t]);
                        }
                    }
                }
            },
        }
    }

    /// Register `package` at `version` with the given mandatory dependency
    /// edges.
    pub fn add_deps(&mut self, package: &str, version: Semver, deps: Vec<DepReq>)
        requires
            old(self).wf(),
        ensures
            final(self).wf(),
            final(self)@ == spec_register(
                old(self)@,
                package@,
                version,
                Option::None,
                reqs_view(deps@),
            ),
    {
        self.register(package, version, Option::None, deps);
    }

    /// Register the optional feature `feature` of `package` at `version`
    /// with the given dependency edges.
    pub fn add_feature(&mut self, package: &str, version: Semver, feature: &str, deps: Vec<DepReq>)
        requires
            old(self).wf(),
        ensures
            final(self).wf(),
            final(self)@ == spec_register(
                old(self)@,
                package@,
                version,
                Option::Some(feature@),
                reqs_view(deps@),
            ),
    {
        self.register(package, version, Option::Some(feature), deps);
    }
}

} // verus!
