//! Package identities and their textual encoding.
//!
//! An identity is a bucket (`"name#3"`), a feature of a bucket
//! (`"name#3/feat"`), or a synthetic proxy, which has a rendering but no
//! parseable form.

use vstd::prelude::*;
use vstd::string::StrSliceExecFns;
use vstd::string::StringExecFns;
use crate::version::Semver;

verus! {

/// A bucket: one major-version line of a package, resolved independently.
#[derive(Clone, Debug, PartialEq, Eq, Hash)]
pub struct Bucket {
    pub name: String,
    /// Matches the registered versions whose major component equals this.
    pub bucket: u32,
}

/// A solver-level package identity.
#[derive(Clone, Debug, PartialEq, Eq, Hash)]
pub enum Package {
    /// One major-version line of a registered package.
    Bucket(Bucket),
    /// A synthetic node standing for one dependency edge of `source` toward
    /// `target`, deferring which bucket of `target` is required.
    Proxy { source: Bucket, source_version: Semver, target: String, feature: Option<String> },
    /// The optional feature bundle `feature` of the bucket `base`.
    Feature { base: Bucket, feature: String },
}

/// Mathematical value of a `Bucket`.
pub struct BucketView {
    pub name: Seq<char>,
    pub bucket: u32,
}

/// Mathematical value of a `Package`.
pub enum PackageView {
    Bucket { name: Seq<char>, bucket: u32 },
    Proxy {
        source_name: Seq<char>,
        source_bucket: u32,
        source_version: Semver,
        target: Seq<char>,
        feature: Option<Seq<char>>,
    },
    Feature { name: Seq<char>, bucket: u32, feature: Seq<char> },
}

impl View for Bucket {
    type V = BucketView;

    open spec fn view(&self) -> BucketView {
        BucketView { name: self.name@, bucket: self.bucket }
    }
}

impl View for Package {
    type V = PackageView;

    open spec fn view(&self) -> PackageView {
        match self {
            Package::Bucket(b) => PackageView::Bucket { name: b.name@, bucket: b.bucket },
            Package::Proxy { source, source_version, target, feature } => PackageView::Proxy {
                source_name: source.name@,
                source_bucket: source.bucket,
                source_version: *source_version,
                target: target@,
                feature: match feature {
                    Option::None => Option::None,
                    Option::Some(f) => Option::Some(f@),
                },
            },
            Package::Feature { base, feature } => PackageView::Feature {
                name: base.name@,
                bucket: base.bucket,
                feature: feature@,
            },
        }
    }
}

impl Package {
    /// The registry name this identity refers to: its own package name for a
    /// bucket or feature, the source package's name for a proxy.
    pub fn pkg_name(&self) -> (r: &String)
        ensures
            r@ == self.spec_pkg_name(),
    {
        match self {
            Package::Bucket(b) => &b.name,
            Package::Proxy { source, .. } => &source.name,
            Package::Feature { base, .. } => &base.name,
        }
    }

    pub open spec fn spec_pkg_name(self) -> Seq<char> {
        match self@ {
            PackageView::Bucket { name, .. } => name,
            PackageView::Proxy { source_name, .. } => source_name,
            PackageView::Feature { name, .. } => name,
        }
    }
}

// ---------------------------------------------------------------------------
// Decimal digits
// ---------------------------------------------------------------------------
pub open spec fn is_digit(c: char) -> bool {
    c == '0' || c == '1' || c == '2' || c == '3' || c == '4' || c == '5' || c == '6' || c == '7'
        || c == '8' || c == '9'
}

pub open spec fn digit_val(c: char) -> nat {
    if c == '0' {
        0
    } else if c == '1' {
        1
    } else if c == '2' {
        2
    } else if c == '3' {
        3
    } else if c == '4' {
        4
    } else if c == '5' {
        5
    } else if c == '6' {
        6
    } else if c == '7' {
        7
    } else if c == '8' {
        8
    } else {
        9
    }
}

pub open spec fn char_of_digit(d: nat) -> char {
    if d == 0 {
        '0'
    } else if d == 1 {
        '1'
    } else if d == 2 {
        '2'
    } else if d == 3 {
        '3'
    } else if d == 4 {
        '4'
    } else if d == 5 {
        '5'
    } else if d == 6 {
        '6'
    } else if d == 7 {
        '7'
    } else if d == 8 {
        '8'
    } else {
        '9'
    }
}

/// The canonical decimal rendering of a number.
pub open spec fn decimal_text(n: nat) -> Seq<char>
    decreases n,
{
    if n < 10 {
        seq![char_of_digit(n)]
    } else {
        decimal_text(n / 10).push(char_of_digit(n % 10))
    }
}

/// The number a digit sequence denotes.
pub open spec fn digits_val(s: Seq<char>) -> nat
    decreases s.len(),
{
    if s.len() == 0 {
        0
    } else {
        digits_val(s.drop_last()) * 10 + digit_val(s.last())
    }
}

pub open spec fn all_digits(s: Seq<char>) -> bool {
    forall|i: int| 0 <= i < s.len() ==> is_digit(#[trigger] s[i])
}

/// A digit sequence that is the canonical rendering of some `u32`: nonempty,
/// without a superfluous leading zero, and within range.
pub open spec fn canonical_digits(s: Seq<char>) -> bool {
    &&& s.len() > 0
    &&& all_digits(s)
    &&& (s.len() > 1 ==> s[0] != '0')
    &&& digits_val(s) <= u32::MAX
}

proof fn lemma_digit_roundtrip(d: nat)
    requires
        d < 10,
    ensures
        is_digit(char_of_digit(d)),
        digit_val(char_of_digit(d)) == d,
        d >= 1 ==> char_of_digit(d) != '0',
{
}

/// A digit character is recovered from its value.
proof fn lemma_char_digit_inverse(c: char)
    requires
        is_digit(c),
    ensures
        char_of_digit(digit_val(c)) == c,
        digit_val(c) < 10,
{
}

/// The canonical rendering denotes its number, consists of digits, and has
/// no leading zero.
pub proof fn lemma_decimal_text(n: nat)
    ensures
        decimal_text(n).len() > 0,
        all_digits(decimal_text(n)),
        digits_val(decimal_text(n)) == n,
        n >= 1 ==> decimal_text(n)[0] != '0',
        decimal_text(n).len() > 1 ==> decimal_text(n)[0] != '0',
    decreases n,
{
    if n < 10 {
        lemma_digit_roundtrip(n);
        let t = decimal_text(n);
        assert(t == seq![char_of_digit(n)]);
        assert(t.len() == 1 && t.last() == char_of_digit(n));
        assert(t.drop_last() =~= Seq::<char>::empty());
        assert(digits_val(t.drop_last()) == 0);
        assert(digits_val(t) == 0 * 10 + digit_val(char_of_digit(n)));
    } else {
        vstd::arithmetic::div_mod::lemma_fundamental_div_mod(n as int, 10);
        lemma_decimal_text(n / 10);
        lemma_digit_roundtrip(n % 10);
        let prefix = decimal_text(n / 10);
        let whole = decimal_text(n);
        assert(whole == prefix.push(char_of_digit(n % 10)));
        assert(whole.drop_last() =~= prefix);
        assert(whole.last() == char_of_digit(n % 10));
        assert(digits_val(whole) == digits_val(prefix) * 10 + digit_val(char_of_digit(n % 10)));
        assert(forall|i: int|
            0 <= i < whole.len() ==> is_digit(#[trigger] whole[i])) by {
            assert(forall|i: int|
                0 <= i < prefix.len() ==> is_digit(#[trigger] prefix[i]));
        }
        assert(whole[0] == prefix[0]);
        assert(n / 10 >= 1);
    }
}

/// A nonempty digit sequence without a leading zero denotes a positive
/// number once it is longer than the single digit `0`.
proof fn lemma_digits_positive(s: Seq<char>)
    requires
        s.len() > 0,
        all_digits(s),
        s[0] != '0',
    ensures
        digits_val(s) >= 1,
    decreases s.len(),
{
    if s.len() == 1 {
        assert(digits_val(s) == digits_val(s.drop_last()) * 10 + digit_val(s.last()));
        assert(s.last() == s[0]);
        assert(is_digit(s[0]));
        assert(digit_val(s[0]) >= 1);
    } else {
        lemma_digits_positive(s.drop_last());
        assert(digits_val(s) == digits_val(s.drop_last()) * 10 + digit_val(s.last()));
    }
}

/// Extending a digit sequence on the right never lowers its value.
proof fn lemma_digits_val_prefix(s: Seq<char>, m: int)
    requires
        0 <= m <= s.len(),
    ensures
        digits_val(s.take(m)) <= digits_val(s),
    decreases s.len(),
{
    if m < s.len() {
        assert(s.drop_last().take(m) =~= s.take(m));
        lemma_digits_val_prefix(s.drop_last(), m);
        assert(digits_val(s) == digits_val(s.drop_last()) * 10 + digit_val(s.last()));
    } else {
        assert(s.take(m) =~= s);
    }
}

/// A canonical digit sequence is the canonical rendering of its own value:
/// decimal renderings are unique.
pub proof fn lemma_digits_unique(s: Seq<char>)
    requires
        s.len() > 0,
        all_digits(s),
        s.len() > 1 ==> s[0] != '0',
    ensures
        decimal_text(digits_val(s)) == s,
    decreases s.len(),
{
    if s.len() == 1 {
        let d = digit_val(s[0]);
        assert(digits_val(s) == digits_val(s.drop_last()) * 10 + digit_val(s.last()));
        assert(s.last() == s[0]);
        assert(is_digit(s[0]));
        lemma_char_digit_inverse(s[0]);
        assert(digits_val(s) == d && d < 10);
        assert(decimal_text(d) =~= s);
    } else {
        let prefix = s.drop_last();
        assert(prefix[0] == s[0]);
        lemma_digits_positive(prefix);
        lemma_digits_unique(prefix);
        let pv = digits_val(prefix);
        let d = digit_val(s.last());
        let n = digits_val(s);
        assert(n == pv * 10 + d);
        assert(pv >= 1);
        assert(d < 10);
        assert(n >= 10);
        assert(n / 10 == pv && n % 10 == d) by (nonlinear_arith)
            requires
                n == pv * 10 + d,
                0 <= d < 10,
                pv >= 0,
        ;
        assert(is_digit(s.last()));
        lemma_char_digit_inverse(s.last());
        assert(char_of_digit(n % 10) == s.last());
        assert(decimal_text(n) == decimal_text(pv).push(s.last()));
        assert(prefix.push(s.last()) =~= s);
    }
}


// ---------------------------------------------------------------------------
// First occurrence of a character
// ---------------------------------------------------------------------------
/// Index of the first occurrence of `c` in `s`, or `-1` if absent.
pub open spec fn first_idx(s: Seq<char>, c: char) -> int
    decreases s.len(),
{
    if s.len() == 0 {
        -1
    } else if s[0] == c {
        0
    } else {
        let rest = first_idx(s.drop_first(), c);
        if rest < 0 {
            -1
        } else {
            rest + 1
        }
    }
}

pub proof fn lemma_first_idx_at(s: Seq<char>, c: char, i: int)
    requires
        0 <= i < s.len(),
        s[i] == c,
        forall|j: int| 0 <= j < i ==> s[j] != c,
    ensures
        first_idx(s, c) == i,
    decreases s.len(),
{
    if i > 0 {
        assert(s[0] != c);
        assert(s.drop_first()[i - 1] == s[i]);
        assert forall|j: int| 0 <= j < i - 1 implies s.drop_first()[j] != c by {
            assert(s.drop_first()[j] == s[j + 1]);
        }
        lemma_first_idx_at(s.drop_first(), c, i - 1);
    }
}

pub proof fn lemma_first_idx_none(s: Seq<char>, c: char)
    requires
        forall|j: int| 0 <= j < s.len() ==> s[j] != c,
    ensures
        first_idx(s, c) == -1,
    decreases s.len(),
{
    if s.len() > 0 {
        assert forall|j: int| 0 <= j < s.drop_first().len() implies s.drop_first()[j] != c by {
            assert(s.drop_first()[j] == s[j + 1]);
        }
        lemma_first_idx_none(s.drop_first(), c);
    }
}

/// What `first_idx` returns is indeed the first occurrence.
pub proof fn lemma_first_idx_props(s: Seq<char>, c: char)
    ensures
        first_idx(s, c) < 0 ==> (forall|j: int| 0 <= j < s.len() ==> s[j] != c),
        first_idx(s, c) >= 0 ==> 0 <= first_idx(s, c) < s.len() && s[first_idx(s, c)] == c && (
        forall|j: int| 0 <= j < first_idx(s, c) ==> s[j] != c),
    decreases s.len(),
{
    if s.len() > 0 && s[0] != c {
        lemma_first_idx_props(s.drop_first(), c);
        let r = first_idx(s.drop_first(), c);
        if r < 0 {
            assert forall|j: int| 0 <= j < s.len() implies s[j] != c by {
                if j > 0 {
                    assert(s.drop_first()[j - 1] == s[j]);
                }
            }
        } else {
            assert(s[r + 1] == s.drop_first()[r]);
            assert forall|j: int| 0 <= j < r + 1 implies s[j] != c by {
                if j > 0 {
                    assert(s.drop_first()[j - 1] == s[j]);
                }
            }
        }
    }
}

// ---------------------------------------------------------------------------
// Textual encoding
// ---------------------------------------------------------------------------
/// The meaning of a piece of identity text: `"name#bucket"` is a bucket,
/// `"name#bucket/feature"` a feature, anything else is malformed.  The
/// bucket must be the canonical decimal rendering of a `u32`.  No text
/// means a proxy.
pub open spec fn spec_parse(s: Seq<char>) -> Option<PackageView> {
    let i = first_idx(s, '#');
    if i < 0 {
        Option::None
    } else {
        let name = s.take(i);
        let rest = s.skip(i + 1);
        let j = first_idx(rest, '/');
        if j < 0 {
            if canonical_digits(rest) {
                Option::Some(PackageView::Bucket { name, bucket: digits_val(rest) as u32 })
            } else {
                Option::None
            }
        } else {
            let ds = rest.take(j);
            let feat = rest.skip(j + 1);
            if canonical_digits(ds) {
                Option::Some(
                    PackageView::Feature {
                        name,
                        bucket: digits_val(ds) as u32,
                        feature: feat,
                    },
                )
            } else {
                Option::None
            }
        }
    }
}

/// The rendering of a version as `major.minor.patch`.
pub open spec fn semver_text(v: Semver) -> Seq<char> {
    decimal_text(v.major as nat) + seq!['.'] + decimal_text(v.minor as nat) + seq!['.']
        + decimal_text(v.patch as nat)
}

/// The rendering of an identity.  Buckets and features render to their
/// parseable forms; a proxy renders to `source@version->target` (with the
/// target feature after the version), which never parses back.
pub open spec fn spec_text(p: PackageView) -> Seq<char> {
    match p {
        PackageView::Bucket { name, bucket } => name + seq!['#'] + decimal_text(bucket as nat),
        PackageView::Feature { name, bucket, feature } => name + seq!['#'] + decimal_text(
            bucket as nat,
        ) + seq!['/'] + feature,
        PackageView::Proxy { source_name, source_bucket, source_version, target, feature } => {
            let head = source_name + seq!['#'] + decimal_text(source_bucket as nat) + seq!['@']
                + semver_text(source_version);
            let mid = match feature {
                Option::Some(f) => seq!['/'] + f,
                Option::None => Seq::<char>::empty(),
            };
            head + mid + seq!['-', '>'] + target
        },
    }
}

// ---------------------------------------------------------------------------
// The round trip of the textual encoding
// ---------------------------------------------------------------------------
/// Parsing a piece of text and rendering the result reproduces the text
/// exactly, and no text ever parses to a proxy.
pub proof fn lemma_parse_then_encode(s: Seq<char>, p: PackageView)
    requires
        spec_parse(s) == Option::Some(p),
    ensures
        spec_text(p) == s,
        !(p is Proxy),
{
    let i = first_idx(s, '#');
    lemma_first_idx_props(s, '#');
    let name = s.take(i);
    let rest = s.skip(i + 1);
    let j = first_idx(rest, '/');
    lemma_first_idx_props(rest, '/');
    if j < 0 {
        lemma_digits_unique(rest);
        let b = digits_val(rest) as u32;
        assert(b as nat == digits_val(rest));
        assert(decimal_text(b as nat) == rest);
        assert(name + seq!['#'] + rest =~= s);
    } else {
        let ds = rest.take(j);
        let feat = rest.skip(j + 1);
        lemma_digits_unique(ds);
        let b = digits_val(ds) as u32;
        assert(b as nat == digits_val(ds));
        assert(decimal_text(b as nat) == ds);
        assert(rest[j] == '/');
        assert(name + seq!['#'] + ds + seq!['/'] + feat =~= s);
    }
}

/// Rendering a bucket or feature identity and parsing the result recovers
/// the identity, provided the package name contains no `#`.
pub proof fn lemma_encode_then_parse(p: PackageView)
    requires
        match p {
            PackageView::Bucket { name, .. } => forall|t: int|
                0 <= t < name.len() ==> name[t] != '#',
            PackageView::Feature { name, .. } => forall|t: int|
                0 <= t < name.len() ==> name[t] != '#',
            PackageView::Proxy { .. } => false,
        },
    ensures
        spec_parse(spec_text(p)) == Option::Some(p),
{
    match p {
        PackageView::Bucket { name, bucket } => {
            let dt = decimal_text(bucket as nat);
            lemma_decimal_text(bucket as nat);
            let s = spec_text(p);
            assert(s[name.len() as int] == '#');
            assert forall|t: int| 0 <= t < name.len() implies s[t] != '#' by {
                assert(s[t] == name[t]);
            }
            lemma_first_idx_at(s, '#', name.len() as int);
            assert(s.take(name.len() as int) =~= name);
            let rest = s.skip(name.len() as int + 1);
            assert(rest =~= dt);
            assert forall|t: int| 0 <= t < dt.len() implies dt[t] != '/' by {
                assert(is_digit(dt[t]));
            }
            lemma_first_idx_none(dt, '/');
            assert(canonical_digits(dt));
            assert(digits_val(dt) as u32 == bucket);
        },
        PackageView::Feature { name, bucket, feature } => {
            let dt = decimal_text(bucket as nat);
            lemma_decimal_text(bucket as nat);
            let s = spec_text(p);
            assert(s[name.len() as int] == '#');
            assert forall|t: int| 0 <= t < name.len() implies s[t] != '#' by {
                assert(s[t] == name[t]);
            }
            lemma_first_idx_at(s, '#', name.len() as int);
            assert(s.take(name.len() as int) =~= name);
            let rest = s.skip(name.len() as int + 1);
            assert(rest =~= dt + seq!['/'] + feature);
            assert(rest[dt.len() as int] == '/');
            assert forall|t: int| 0 <= t < dt.len() implies rest[t] != '/' by {
                assert(rest[t] == dt[t]);
                assert(is_digit(dt[t]));
            }
            lemma_first_idx_at(rest, '/', dt.len() as int);
            assert(rest.take(dt.len() as int) =~= dt);
            assert(rest.skip(dt.len() as int + 1) =~= feature);
            assert(canonical_digits(dt));
            assert(digits_val(dt) as u32 == bucket);
        },
        PackageView::Proxy { .. } => {},
    }
}


// ---------------------------------------------------------------------------
// Executable rendering
// ---------------------------------------------------------------------------
fn digit_str(d: u32) -> (r: &'static str)
    requires
        d < 10,
    ensures
        r@ == seq![char_of_digit(d as nat)],
{
    proof {
        reveal_strlit("0");
        reveal_strlit("1");
        reveal_strlit("2");
        reveal_strlit("3");
        reveal_strlit("4");
        reveal_strlit("5");
        reveal_strlit("6");
        reveal_strlit("7");
        reveal_strlit("8");
        reveal_strlit("9");
    }
    let r: &'static str = if d == 0 {
        "0"
    } else if d == 1 {
        "1"
    } else if d == 2 {
        "2"
    } else if d == 3 {
        "3"
    } else if d == 4 {
        "4"
    } else if d == 5 {
        "5"
    } else if d == 6 {
        "6"
    } else if d == 7 {
        "7"
    } else if d == 8 {
        "8"
    } else {
        "9"
    };
    proof {
        assert(r@ =~= seq![char_of_digit(d as nat)]);
    }
    r
}

/// The canonical decimal rendering of a number.
pub fn u32_to_text(n: u32) -> (s: String)
    ensures
        s@ == decimal_text(n as nat),
    decreases n,
{
    if n < 10 {
        digit_str(n).to_owned()
    } else {
        let mut s = u32_to_text(n / 10);
        let d = digit_str(n % 10);
        s.append(d);
        proof {
            assert((n / 10) as nat == n as nat / 10);
            assert((n % 10) as nat == n as nat % 10);
            assert(s@ =~= decimal_text(n as nat / 10).push(char_of_digit(n as nat % 10)));
        }
        s
    }
}

/// The rendering of a version as `major.minor.patch`.
pub fn semver_to_text(v: &Semver) -> (s: String)
    ensures
        s@ == semver_text(*v),
{
    let mut s = u32_to_text(v.major);
    s.append(".");
    let minor = u32_to_text(v.minor);
    s.append(minor.as_str());
    s.append(".");
    let patch = u32_to_text(v.patch);
    s.append(patch.as_str());
    proof {
        reveal_strlit(".");
        assert("."@ =~= seq!['.']);
        assert(s@ =~= semver_text(*v));
    }
    s
}

impl Package {
    /// Render this identity as text: the parseable `"name#bucket"` and
    /// `"name#bucket/feature"` forms, or the display-only proxy form.
    pub fn to_text(&self) -> (s: String)
        ensures
            s@ == spec_text(self@),
    {
        proof {
            reveal_strlit("#");
            reveal_strlit("/");
            reveal_strlit("@");
            reveal_strlit("->");
            assert("#"@ =~= seq!['#']);
            assert("/"@ =~= seq!['/']);
            assert("@"@ =~= seq!['@']);
            assert("->"@ =~= seq!['-', '>']);
        }
        match self {
            Package::Bucket(b) => {
                let mut s = b.name.clone();
                s.append("#");
                let bt = u32_to_text(b.bucket);
                s.append(bt.as_str());
                proof {
                    assert(s@ =~= spec_text(self@));
                }
                s
            },
            Package::Feature { base, feature } => {
                let mut s = base.name.clone();
                s.append("#");
                let bt = u32_to_text(base.bucket);
                s.append(bt.as_str());
                s.append("/");
                s.append(feature.as_str());
                proof {
                    assert(s@ =~= spec_text(self@));
                }
                s
            },
            Package::Proxy { source, source_version, target, feature } => {
                let mut s = source.name.clone();
                s.append("#");
                let bt = u32_to_text(source.bucket);
                s.append(bt.as_str());
                s.append("@");
                let vt = semver_to_text(source_version);
                s.append(vt.as_str());
                match feature {
                    Option::Some(f) => {
                        s.append("/");
                        s.append(f.as_str());
                    },
                    Option::None => {},
                }
                s.append("->");
                s.append(target.as_str());
                proof {
                    assert(s@ =~= spec_text(self@));
                }
                s
            },
        }
    }
}

// ---------------------------------------------------------------------------
// Executable parsing
// ---------------------------------------------------------------------------
fn invalid_name_error(s: &str) -> String {
    let mut m = s.to_owned();
    m.append(" is not a valid package name");
    m
}

impl Package {
    /// Parse identity text.  Returns the bucket or feature identity the
    /// text denotes, or an error for any text of another shape; no text
    /// denotes a proxy.
    #[verifier::loop_isolation(false)]
    #[verifier::rlimit(60)]
    pub fn from_text(s: &str) -> (r: Result<Package, String>)
        ensures
            match r {
                Ok(p) => spec_parse(s@) == Option::Some(p@),
                Err(_) => spec_parse(s@) is None,
            },
    {
        let n = s.unicode_len();
        let mut i: usize = 0;
        while i < n && s.get_char(i) != '#'
            invariant
                n == s@.len(),
                0 <= i <= n,
                forall|j: int| 0 <= j < i ==> s@[j] != '#',
            decreases n - i,
        {
            i += 1;
        }
        if i == n {
            proof {
                lemma_first_idx_none(s@, '#');
            }
            return Err(invalid_name_error(s));
        }
        proof {
            lemma_first_idx_at(s@, '#', i as int);
        }
        let dstart = i + 1;
        let mut j: usize = dstart;
        while j < n && s.get_char(j) != '/'
            invariant
                n == s@.len(),
                dstart <= j <= n,
                forall|k: int| dstart <= k < j ==> s@[k] != '/',
            decreases n - j,
        {
            j += 1;
        }
        let ghost rest = s@.skip(dstart as int);
        let ghost ds = s@.subrange(dstart as int, j as int);
        proof {
            if j == n {
                assert forall|k: int| 0 <= k < rest.len() implies rest[k] != '/' by {
                    assert(rest[k] == s@[dstart + k]);
                }
                lemma_first_idx_none(rest, '/');
                assert(ds =~= rest);
            } else {
                assert(rest[j - dstart] == s@[j as int]);
                assert forall|k: int| 0 <= k < j - dstart implies rest[k] != '/' by {
                    assert(rest[k] == s@[dstart + k]);
                }
                lemma_first_idx_at(rest, '/', j - dstart);
                assert(ds =~= rest.take(j - dstart));
            }
        }
        if j == dstart {
            // Empty bucket number.
            return Err(invalid_name_error(s));
        }
        if j > dstart + 1 && s.get_char(dstart) == '0' {
            // Superfluous leading zero: not the canonical rendering.
            proof {
                assert(ds[0] == s@[dstart as int]);
            }
            return Err(invalid_name_error(s));
        }
        let mut val: u32 = 0;
        let mut k: usize = dstart;
        while k < j
            invariant
                n == s@.len(),
                dstart <= k <= j <= n,
                ds == s@.subrange(dstart as int, j as int),
                forall|t: int| dstart <= t < k ==> is_digit(#[trigger] s@[t]),
                val as nat == digits_val(s@.subrange(dstart as int, k as int)),
            decreases j - k,
        {
            let c = s.get_char(k);
            let d: u32 = if c == '0' {
                0
            } else if c == '1' {
                1
            } else if c == '2' {
                2
            } else if c == '3' {
                3
            } else if c == '4' {
                4
            } else if c == '5' {
                5
            } else if c == '6' {
                6
            } else if c == '7' {
                7
            } else if c == '8' {
                8
            } else if c == '9' {
                9
            } else {
                // A character that is no digit makes the bucket malformed.
                proof {
                    assert(ds[k - dstart] == s@[k as int]);
                    assert(!is_digit(ds[k - dstart]));
                }
                return Err(invalid_name_error(s));
            };
            let ghost pre = s@.subrange(dstart as int, k + 1);
            proof {
                assert(pre.drop_last() =~= s@.subrange(dstart as int, k as int));
                assert(pre.last() == s@[k as int]);
                assert(digit_val(s@[k as int]) == d as nat);
                assert(digits_val(pre) == (val as nat) * 10 + d as nat);
            }
            if val > 429496729 || (val == 429496729 && d > 5) {
                // The number cannot be the rendering of a `u32`.
                proof {
                    assert(digits_val(pre) > u32::MAX);
                    lemma_digits_val_prefix(ds, k + 1 - dstart);
                    assert(ds.take(k + 1 - dstart) =~= pre);
                    assert(digits_val(ds) > u32::MAX);
                }
                return Err(invalid_name_error(s));
            }
            val = val * 10 + d;
            k += 1;
        }
        let name = s.substring_char(0, i).to_owned();
        proof {
            assert(name@ =~= s@.take(i as int));
            assert(canonical_digits(ds));
        }
        if j == n {
            let p = Package::Bucket(Bucket { name, bucket: val });
            proof {
                assert(spec_parse(s@) == Option::Some(p@));
            }
            Ok(p)
        } else {
            let feat = s.substring_char(j + 1, n).to_owned();
            let p = Package::Feature { base: Bucket { name, bucket: val }, feature: feat };
            proof {
                assert(feat@ =~= rest.skip(j - dstart + 1));
                assert(spec_parse(s@) == Option::Some(p@));
            }
            Ok(p)
        }
    }
}

} // verus!
