//! npm semantic versions and ranges (node-semver).
use vstd::prelude::*;

use node_semver::{Identifier, Range, SemverError, Version};

use crate::text::{
    lemma_lex_asymmetric, lemma_lex_irreflexive, lemma_lex_total, lemma_lex_transitive, lex_less,
    lex_lt, push_char, push_str, chars_of,
};
use crate::platform::views;

verus! {

#[verifier::external_type_specification]
#[verifier::external_body]
pub struct ExVersionRange(Range);

#[verifier::external_type_specification]
#[verifier::external_body]
pub struct ExSemverError(SemverError);

// ---------------------------------------------------------------------------
// Versions as plain values
// ---------------------------------------------------------------------------

/// A pre-release or build identifier.
pub enum Ident {
    Numeric(u64),
    AlphaNumeric(String),
}

/// The value of an [`Ident`].
pub enum IdentModel {
    Numeric(u64),
    AlphaNumeric(Seq<char>),
}

impl View for Ident {
    type V = IdentModel;

    open spec fn view(&self) -> IdentModel {
        match self {
            Ident::Numeric(n) => IdentModel::Numeric(*n),
            Ident::AlphaNumeric(s) => IdentModel::AlphaNumeric(s@),
        }
    }
}

/// A parsed semantic version.
pub struct SemVer {
    pub major: u64,
    pub minor: u64,
    pub patch: u64,
    pub pre_release: Vec<Ident>,
    pub build: Vec<Ident>,
}

/// The value of a [`SemVer`].
pub struct SemVerModel {
    pub major: u64,
    pub minor: u64,
    pub patch: u64,
    pub pre_release: Seq<IdentModel>,
    pub build: Seq<IdentModel>,
}

pub open spec fn ident_views(v: Seq<Ident>) -> Seq<IdentModel> {
    v.map_values(|i: Ident| i@)
}

impl View for SemVer {
    type V = SemVerModel;

    open spec fn view(&self) -> SemVerModel {
        SemVerModel {
            major: self.major,
            minor: self.minor,
            patch: self.patch,
            pre_release: ident_views(self.pre_release@),
            build: ident_views(self.build@),
        }
    }
}

// ---------------------------------------------------------------------------
// Version order (node_semver's `Ord for Version`)
// ---------------------------------------------------------------------------

/// Three-way comparison of integers: -1, 0 or 1.
pub open spec fn order_int(a: int, b: int) -> int {
    if a < b {
        -1
    } else if a == b {
        0
    } else {
        1
    }
}

/// Order of identifiers: numeric ones first, by value; then alphanumeric ones, by text.
pub open spec fn order_ident(a: IdentModel, b: IdentModel) -> int {
    match (a, b) {
        (IdentModel::Numeric(x), IdentModel::Numeric(y)) => order_int(x as int, y as int),
        (IdentModel::Numeric(_), IdentModel::AlphaNumeric(_)) => -1,
        (IdentModel::AlphaNumeric(_), IdentModel::Numeric(_)) => 1,
        (IdentModel::AlphaNumeric(x), IdentModel::AlphaNumeric(y)) => if lex_lt(x, y) {
            -1
        } else if x == y {
            0
        } else {
            1
        },
    }
}

/// Lexicographic order of identifier lists.
pub open spec fn order_idents(a: Seq<IdentModel>, b: Seq<IdentModel>) -> int
    decreases a.len(),
{
    if a.len() == 0 {
        if b.len() == 0 {
            0
        } else {
            -1
        }
    } else if b.len() == 0 {
        1
    } else {
        let c = order_ident(a[0], b[0]);
        if c != 0 {
            c
        } else {
            order_idents(a.drop_first(), b.drop_first())
        }
    }
}

/// The order of versions: by major, minor and patch number; then a version without
/// pre-release identifiers is above one with them; then by the pre-release identifiers.
/// Build metadata does not take part.
pub open spec fn semver_order(a: SemVerModel, b: SemVerModel) -> int {
    if a.major != b.major {
        order_int(a.major as int, b.major as int)
    } else if a.minor != b.minor {
        order_int(a.minor as int, b.minor as int)
    } else if a.patch != b.patch {
        order_int(a.patch as int, b.patch as int)
    } else if a.pre_release.len() == 0 && b.pre_release.len() == 0 {
        0
    } else if a.pre_release.len() == 0 {
        1
    } else if b.pre_release.len() == 0 {
        -1
    } else {
        order_idents(a.pre_release, b.pre_release)
    }
}

/// Two versions that the order cannot tell apart.
pub open spec fn same_rank(a: SemVerModel, b: SemVerModel) -> bool {
    a.major == b.major && a.minor == b.minor && a.patch == b.patch && a.pre_release
        == b.pre_release
}

proof fn lemma_order_ident_props(a: IdentModel, b: IdentModel)
    ensures
        order_ident(a, b) == -order_ident(b, a),
        order_ident(a, b) == 0 <==> a == b,
        -1 <= order_ident(a, b) <= 1,
{
    if let (IdentModel::AlphaNumeric(x), IdentModel::AlphaNumeric(y)) = (a, b) {
        lemma_lex_total(x, y);
        if lex_lt(x, y) {
            lemma_lex_asymmetric(x, y);
        }
        if lex_lt(y, x) {
            lemma_lex_asymmetric(y, x);
        }
        lemma_lex_irreflexive(x);
    }
}

proof fn lemma_order_ident_trans(a: IdentModel, b: IdentModel, c: IdentModel)
    requires
        order_ident(a, b) < 0,
        order_ident(b, c) < 0,
    ensures
        order_ident(a, c) < 0,
{
    if let (IdentModel::AlphaNumeric(x), IdentModel::AlphaNumeric(y), IdentModel::AlphaNumeric(z)) = (
        a,
        b,
        c,
    ) {
        lemma_lex_total(x, y);
        lemma_lex_total(y, z);
        lemma_lex_transitive(x, y, z);
        lemma_lex_irreflexive(x);
        lemma_lex_irreflexive(y);
        if lex_lt(x, z) {
            lemma_lex_asymmetric(x, z);
        }
    }
}

proof fn lemma_order_idents_props(a: Seq<IdentModel>, b: Seq<IdentModel>)
    ensures
        order_idents(a, b) == -order_idents(b, a),
        order_idents(a, b) == 0 <==> a == b,
        -1 <= order_idents(a, b) <= 1,
    decreases a.len(),
{
    if a.len() > 0 && b.len() > 0 {
        lemma_order_ident_props(a[0], b[0]);
        lemma_order_idents_props(a.drop_first(), b.drop_first());
        if a[0] == b[0] && a.drop_first() == b.drop_first() {
            assert(a =~= seq![a[0]] + a.drop_first());
            assert(b =~= seq![b[0]] + b.drop_first());
        }
        if a == b {
            assert(a.drop_first() == b.drop_first());
        }
    } else if a.len() == 0 && b.len() == 0 {
        assert(a =~= b);
    }
}

proof fn lemma_order_idents_trans(a: Seq<IdentModel>, b: Seq<IdentModel>, c: Seq<IdentModel>)
    requires
        order_idents(a, b) < 0,
        order_idents(b, c) < 0,
    ensures
        order_idents(a, c) < 0,
    decreases a.len(),
{
    if a.len() > 0 && b.len() > 0 && c.len() > 0 {
        lemma_order_ident_props(a[0], b[0]);
        lemma_order_ident_props(b[0], c[0]);
        lemma_order_ident_props(a[0], c[0]);
        if order_ident(a[0], b[0]) < 0 && order_ident(b[0], c[0]) < 0 {
            lemma_order_ident_trans(a[0], b[0], c[0]);
        } else if order_ident(a[0], b[0]) == 0 && order_ident(b[0], c[0]) == 0 {
            lemma_order_idents_trans(a.drop_first(), b.drop_first(), c.drop_first());
        }
    }
}

/// The version order is antisymmetric, and equal exactly on versions of the same rank.
pub proof fn lemma_semver_order_antisymmetric(a: SemVerModel, b: SemVerModel)
    ensures
        semver_order(a, b) == -semver_order(b, a),
        semver_order(a, b) == 0 <==> same_rank(a, b),
        -1 <= semver_order(a, b) <= 1,
{
    lemma_order_idents_props(a.pre_release, b.pre_release);
}

/// The version order is transitive.
pub proof fn lemma_semver_order_transitive(a: SemVerModel, b: SemVerModel, c: SemVerModel)
    requires
        semver_order(a, b) <= 0,
        semver_order(b, c) <= 0,
    ensures
        semver_order(a, c) <= 0,
        semver_order(a, b) < 0 || semver_order(b, c) < 0 ==> semver_order(a, c) < 0,
{
    lemma_semver_order_antisymmetric(a, b);
    lemma_semver_order_antisymmetric(b, c);
    lemma_semver_order_antisymmetric(a, c);
    if a.major == b.major && b.major == c.major && a.minor == b.minor && b.minor == c.minor
        && a.patch == b.patch && b.patch == c.patch && a.pre_release.len() > 0
        && b.pre_release.len() > 0 && c.pre_release.len() > 0 {
        lemma_order_idents_props(a.pre_release, b.pre_release);
        lemma_order_idents_props(b.pre_release, c.pre_release);
        lemma_order_idents_props(a.pre_release, c.pre_release);
        if order_idents(a.pre_release, b.pre_release) < 0 && order_idents(
            b.pre_release,
            c.pre_release,
        ) < 0 {
            lemma_order_idents_trans(a.pre_release, b.pre_release, c.pre_release);
        }
    }
}

/// A list of pre-release identifiers is below any longer list that starts with it:
/// "alpha" < "alpha.1".
proof fn lemma_order_idents_prefix(a: Seq<IdentModel>, b: Seq<IdentModel>)
    requires
        a.len() < b.len(),
        b.subrange(0, a.len() as int) == a,
    ensures
        order_idents(a, b) < 0,
    decreases a.len(),
{
    if a.len() > 0 {
        lemma_order_ident_props(a[0], b[0]);
        assert(b[0] == b.subrange(0, a.len() as int)[0]);
        assert(b.drop_first().subrange(0, a.drop_first().len() as int) =~= a.drop_first());
        lemma_order_idents_prefix(a.drop_first(), b.drop_first());
    }
}

/// Versions are ordered by their numbers first: a smaller major version is lower,
/// whatever the rest; at an equal major version a smaller minor version is lower; at
/// equal major and minor versions a smaller patch version is lower. At equal numbers
/// a release is above any pre-release of it; between pre-releases, a smaller numeric
/// first identifier is lower, a numeric first identifier is below an alphanumeric one,
/// and a pre-release whose identifiers extend another's is higher.
pub proof fn lemma_semver_order_by_numbers(a: SemVerModel, b: SemVerModel)
    ensures
        a.major < b.major ==> semver_order(a, b) < 0,
        a.major == b.major && a.minor < b.minor ==> semver_order(a, b) < 0,
        a.major == b.major && a.minor == b.minor && a.patch < b.patch ==> semver_order(a, b) < 0,
        a.major == b.major && a.minor == b.minor && a.patch == b.patch && a.pre_release.len() == 0
            && b.pre_release.len() > 0 ==> semver_order(a, b) > 0,
        a.major == b.major && a.minor == b.minor && a.patch == b.patch && a.pre_release.len() > 0
            && b.pre_release.len() > 0 ==> {
            &&& (a.pre_release[0] matches IdentModel::Numeric(x) && b.pre_release[0] matches IdentModel::Numeric(y) && x < y)
                ==> semver_order(a, b) < 0
            &&& (a.pre_release[0] is Numeric && b.pre_release[0] is AlphaNumeric) ==> semver_order(a, b) < 0
            &&& (a.pre_release[0] matches IdentModel::AlphaNumeric(x) && b.pre_release[0] matches IdentModel::AlphaNumeric(y) && lex_lt(x, y))
                ==> semver_order(a, b) < 0
            &&& (a.pre_release.len() < b.pre_release.len() && b.pre_release.subrange(
                0,
                a.pre_release.len() as int,
            ) == a.pre_release) ==> semver_order(a, b) < 0
        },
{
    if a.major == b.major && a.minor == b.minor && a.patch == b.patch && a.pre_release.len() > 0
        && b.pre_release.len() > 0 {
        if a.pre_release.len() < b.pre_release.len() && b.pre_release.subrange(
            0,
            a.pre_release.len() as int,
        ) == a.pre_release {
            lemma_order_idents_prefix(a.pre_release, b.pre_release);
        }
    }
}

fn order_u64(a: u64, b: u64) -> (r: i8)
    ensures
        r == order_int(a as int, b as int),
{
    if a < b {
        -1
    } else if a == b {
        0
    } else {
        1
    }
}

fn compare_ident(a: &Ident, b: &Ident) -> (r: i8)
    ensures
        r == order_ident(a@, b@),
{
    match (a, b) {
        (Ident::Numeric(x), Ident::Numeric(y)) => order_u64(*x, *y),
        (Ident::Numeric(_), Ident::AlphaNumeric(_)) => -1,
        (Ident::AlphaNumeric(_), Ident::Numeric(_)) => 1,
        (Ident::AlphaNumeric(x), Ident::AlphaNumeric(y)) => {
            let xv = chars_of(x.as_str());
            let yv = chars_of(y.as_str());
            if lex_less(&xv, &yv) {
                -1
            } else if lex_less(&yv, &xv) {
                1
            } else {
                proof {
                    lemma_lex_total(x@, y@);
                }
                0
            }
        },
    }
}

fn compare_idents(a: &Vec<Ident>, b: &Vec<Ident>) -> (r: i8)
    ensures
        r == order_idents(ident_views(a@), ident_views(b@)),
{
    let mut i: usize = 0;
    assert(ident_views(a@).skip(0) =~= ident_views(a@));
    assert(ident_views(b@).skip(0) =~= ident_views(b@));
    while i < a.len() && i < b.len()
        invariant
            i <= a.len(),
            i <= b.len(),
            order_idents(ident_views(a@), ident_views(b@)) == order_idents(
                ident_views(a@).skip(i as int),
                ident_views(b@).skip(i as int),
            ),
        decreases a.len() - i,
    {
        let c = compare_ident(&a[i], &b[i]);
        let ghost sa = ident_views(a@).skip(i as int);
        let ghost sb = ident_views(b@).skip(i as int);
        assert(sa[0] == a@[i as int]@);
        assert(sb[0] == b@[i as int]@);
        if c != 0 {
            return c;
        }
        assert(sa.drop_first() =~= ident_views(a@).skip(i + 1));
        assert(sb.drop_first() =~= ident_views(b@).skip(i + 1));
        i = i + 1;
    }
    if i < a.len() {
        1
    } else if i < b.len() {
        -1
    } else {
        0
    }
}

/// `Ord for node_semver::Version`, as a three-way result: -1, 0 or 1.
pub fn compare_versions(a: &SemVer, b: &SemVer) -> (r: i8)
    ensures
        r == semver_order(a@, b@),
{
    if a.major != b.major {
        order_u64(a.major, b.major)
    } else if a.minor != b.minor {
        order_u64(a.minor, b.minor)
    } else if a.patch != b.patch {
        order_u64(a.patch, b.patch)
    } else if a.pre_release.len() == 0 && b.pre_release.len() == 0 {
        0
    } else if a.pre_release.len() == 0 {
        1
    } else if b.pre_release.len() == 0 {
        -1
    } else {
        compare_idents(&a.pre_release, &b.pre_release)
    }
}

// ---------------------------------------------------------------------------
// Parsing and ranges (node_semver)
// ---------------------------------------------------------------------------

/// What `node_semver::Version::parse` makes of a text: a version, or nothing.
pub uninterp spec fn semver_parse(text: Seq<char>) -> Option<SemVerModel>;

/// `node_semver::Range::parse` accepts the text.
pub uninterp spec fn range_parses(text: Seq<char>) -> bool;

/// The range parsed from `range` is satisfied by version `v`.
pub uninterp spec fn range_satisfied(range: Seq<char>, v: SemVerModel) -> bool;

/// `node_semver::Version::parse`: the version that the text denotes, its fields moved
/// one for one into a [`SemVer`], or `None` where the text is no version. The result
/// is a function of the text alone.
#[verifier::external_body]
pub(crate) fn parse_version(text: &str) -> (r: Option<SemVer>)
    ensures
        match r {
            Some(v) => semver_parse(text@) == Some(v@),
            None => semver_parse(text@) is None,
        },
{
    let conv = |ids: Vec<Identifier>| -> Vec<Ident> {
        ids.into_iter().map(|i| match i {
            Identifier::Numeric(n) => Ident::Numeric(n),
            Identifier::AlphaNumeric(s) => Ident::AlphaNumeric(s),
        }).collect()
    };
    Version::parse(text).ok().map(|v| SemVer {
        major: v.major, minor: v.minor, patch: v.patch,
        pre_release: conv(v.pre_release), build: conv(v.build),
    })
}

/// A parsed npm version range, with the text it was parsed from.
///
/// Values are made only by [`VersionReq::parse`], so `range` is always what
/// `node_semver::Range::parse` gives for `source`.
pub struct VersionReq {
    source: String,
    range: Range,
}

impl View for VersionReq {
    type V = Seq<char>;

    closed spec fn view(&self) -> Seq<char> {
        self.source@
    }
}

impl VersionReq {
    /// `node_semver::Range::parse`: `Some` exactly when the text is a valid range; the
    /// range keeps the text it was parsed from.
    #[verifier::external_body]
    pub(crate) fn parse(text: &str) -> (r: Option<VersionReq>)
        ensures
            r is Some <==> range_parses(text@),
            r matches Some(q) ==> q@ == text@,
    {
        match Range::parse(text) {
            Ok(range) => Some(VersionReq { source: text.to_string(), range }),
            Err(_) => None,
        }
    }

    /// `node_semver::Range::satisfies`: whether the version lies in the range; a
    /// function of the range's text and the version's fields.
    #[verifier::external_body]
    pub(crate) fn satisfies(&self, v: &SemVer) -> (r: bool)
        ensures
            r == range_satisfied(self@, v@),
    {
        let conv = |ids: &Vec<Ident>| -> Vec<Identifier> {
            ids.iter().map(|i| match i {
                Ident::Numeric(n) => Identifier::Numeric(*n),
                Ident::AlphaNumeric(s) => Identifier::AlphaNumeric(s.clone()),
            }).collect()
        };
        let version = Version {
            major: v.major, minor: v.minor, patch: v.patch,
            build: conv(&v.build), pre_release: conv(&v.pre_release),
        };
        self.range.satisfies(&version)
    }
}

/// A concrete version text satisfies a requirement text (npm semantics); a text that
/// is no version, or no range, satisfies nothing.
pub open spec fn spec_version_satisfies(version: Seq<char>, requirement: Seq<char>) -> bool {
    range_parses(requirement) && match semver_parse(version) {
        Some(v) => range_satisfied(requirement, v),
        None => false,
    }
}

/// Check if a concrete version satisfies a version requirement (npm semantics)
pub fn version_satisfies(version: &str, requirement: &str) -> (r: bool)
    ensures
        r == spec_version_satisfies(version@, requirement@),
{
    let req = match VersionReq::parse(requirement) {
        Some(r) => r,
        None => return false,
    };
    let ver = match parse_version(version) {
        Some(v) => v,
        None => return false,
    };
    req.satisfies(&ver)
}

// ---------------------------------------------------------------------------
// Choosing the highest satisfying version
// ---------------------------------------------------------------------------

/// Version `i` of `vs` parses and satisfies `req`.
pub open spec fn is_candidate(vs: Seq<Seq<char>>, req: Seq<char>, i: int) -> bool {
    0 <= i < vs.len() && spec_version_satisfies(vs[i], req)
}

/// The parsed version of a candidate.
pub open spec fn parsed(t: Seq<char>) -> SemVerModel {
    semver_parse(t)->0
}

/// Version `i` is a candidate that no candidate is above, and that every earlier
/// candidate is below: the first of the highest satisfying versions.
pub open spec fn is_best(vs: Seq<Seq<char>>, req: Seq<char>, i: int) -> bool {
    &&& is_candidate(vs, req, i)
    &&& forall|j: int|
        #[trigger] is_candidate(vs, req, j) ==> semver_order(parsed(vs[j]), parsed(vs[i])) <= 0
    &&& forall|j: int|
        0 <= j < i && #[trigger] is_candidate(vs, req, j) ==> semver_order(
            parsed(vs[j]),
            parsed(vs[i]),
        ) < 0
}

/// The version picked for a range satisfies it, and no satisfying version has a
/// higher number: not a higher major version; at the same major version not a higher
/// minor version; at the same major and minor versions not a higher patch version.
pub proof fn lemma_best_is_highest(vs: Seq<Seq<char>>, req: Seq<char>, i: int, j: int)
    requires
        is_best(vs, req, i),
        0 <= j < vs.len(),
        spec_version_satisfies(vs[j], req),
    ensures
        0 <= i < vs.len(),
        spec_version_satisfies(vs[i], req),
        parsed(vs[j]).major <= parsed(vs[i]).major,
        parsed(vs[j]).major == parsed(vs[i]).major ==> parsed(vs[j]).minor <= parsed(vs[i]).minor,
        parsed(vs[j]).major == parsed(vs[i]).major && parsed(vs[j]).minor == parsed(vs[i]).minor
            ==> parsed(vs[j]).patch <= parsed(vs[i]).patch,
{
    assert(is_candidate(vs, req, j));
    let a = parsed(vs[i]);
    let b = parsed(vs[j]);
    lemma_semver_order_by_numbers(a, b);
    lemma_semver_order_antisymmetric(a, b);
}

/// What a search for the highest satisfying version returns.
pub open spec fn best_result(vs: Seq<Seq<char>>, req: Seq<char>, r: Option<usize>) -> bool {
    match r {
        Some(i) => is_best(vs, req, i as int),
        None => forall|j: int| !#[trigger] is_candidate(vs, req, j),
    }
}

/// At most one version is the first of the highest.
pub proof fn lemma_best_unique(vs: Seq<Seq<char>>, req: Seq<char>, i: int, k: int)
    requires
        is_best(vs, req, i),
        is_best(vs, req, k),
    ensures
        i == k,
{
    if i < k {
        assert(is_candidate(vs, req, i));
        assert(semver_order(parsed(vs[i]), parsed(vs[k])) < 0);
        assert(semver_order(parsed(vs[k]), parsed(vs[i])) <= 0);
        lemma_semver_order_antisymmetric(parsed(vs[i]), parsed(vs[k]));
    } else if k < i {
        assert(is_candidate(vs, req, k));
        assert(semver_order(parsed(vs[k]), parsed(vs[i])) < 0);
        assert(semver_order(parsed(vs[i]), parsed(vs[k])) <= 0);
        lemma_semver_order_antisymmetric(parsed(vs[i]), parsed(vs[k]));
    }
}

/// The index of the highest version of `versions` that satisfies `requirement`, the
/// first one among equally high ones; `None` when none does.
pub fn pick_best_index(versions: &[String], requirement: &str) -> (r: Option<usize>)
    ensures
        best_result(views(versions@), requirement@, r),
{
    let ghost vs = views(versions@);
    let req = match VersionReq::parse(requirement) {
        Some(q) => q,
        None => {
            return None;
        },
    };
    let mut best: Option<(usize, SemVer)> = None;
    let mut i: usize = 0;
    while i < versions.len()
        invariant
            i <= versions@.len(),
            vs == views(versions@),
            req@ == requirement@,
            range_parses(requirement@),
            match best {
                None => forall|j: int| 0 <= j < i ==> !#[trigger] is_candidate(vs, requirement@, j),
                Some((b, bv)) => {
                    &&& b < i
                    &&& is_candidate(vs, requirement@, b as int)
                    &&& bv@ == parsed(vs[b as int])
                    &&& forall|j: int|
                        0 <= j < i && #[trigger] is_candidate(vs, requirement@, j) ==> semver_order(
                            parsed(vs[j]),
                            bv@,
                        ) <= 0
                    &&& forall|j: int|
                        0 <= j < b && #[trigger] is_candidate(vs, requirement@, j) ==> semver_order(
                            parsed(vs[j]),
                            bv@,
                        ) < 0
                },
            },
        decreases versions@.len() - i,
    {
        assert(vs[i as int] == versions@[i as int]@);
        if let Some(v) = parse_version(versions[i].as_str()) {
            if req.satisfies(&v) {
                assert(is_candidate(vs, requirement@, i as int));
                let replace = match &best {
                    None => true,
                    Some((_, bv)) => compare_versions(&v, bv) > 0,
                };
                if replace {
                    proof {
                        if let Some((b, bv)) = &best {
                            lemma_semver_order_antisymmetric(v@, bv@);
                            assert forall|j: int|
                                0 <= j < i + 1 && #[trigger] is_candidate(
                                    vs,
                                    requirement@,
                                    j,
                                ) implies semver_order(parsed(vs[j]), v@) <= 0 && (j < i
                                ==> semver_order(parsed(vs[j]), v@) < 0) by {
                                if j < i {
                                    lemma_semver_order_transitive(parsed(vs[j]), bv@, v@);
                                } else {
                                    lemma_semver_order_antisymmetric(v@, v@);
                                }
                            }
                        } else {
                            lemma_semver_order_antisymmetric(v@, v@);
                        }
                    }
                    best = Some((i, v));
                } else {
                    proof {
                        if let Some((b, bv)) = &best {
                            lemma_semver_order_antisymmetric(v@, bv@);
                        }
                    }
                }
            } else {
                assert(!is_candidate(vs, requirement@, i as int));
            }
        } else {
            assert(!is_candidate(vs, requirement@, i as int));
        }
        i = i + 1;
    }
    match best {
        Some((b, bv)) => {
            assert forall|j: int| #[trigger] is_candidate(vs, requirement@, j) implies semver_order(
                parsed(vs[j]),
                parsed(vs[b as int]),
            ) <= 0 by {
                assert(0 <= j < i);
            }
            Some(b)
        },
        None => {
            assert forall|j: int| !#[trigger] is_candidate(vs, requirement@, j) by {
                if is_candidate(vs, requirement@, j) {
                    assert(0 <= j < i);
                }
            }
            None
        },
    }
}

// ---------------------------------------------------------------------------
// Version text (node_semver's `Display for Version`)
// ---------------------------------------------------------------------------

/// The decimal digit for `d < 10`.
pub open spec fn digit_char(d: int) -> char {
    (48 + d) as char
}

/// Decimal text of a number, without leading zeros.
pub open spec fn dec_text(n: nat) -> Seq<char>
    decreases n,
{
    if n < 10 {
        seq![digit_char(n as int)]
    } else {
        dec_text(n / 10).push(digit_char((n % 10) as int))
    }
}

pub open spec fn ident_text(i: IdentModel) -> Seq<char> {
    match i {
        IdentModel::Numeric(n) => dec_text(n as nat),
        IdentModel::AlphaNumeric(s) => s,
    }
}

/// Identifiers joined by '.'.
pub open spec fn idents_text(ids: Seq<IdentModel>) -> Seq<char>
    decreases ids.len(),
{
    if ids.len() == 0 {
        Seq::empty()
    } else if ids.len() == 1 {
        ident_text(ids[0])
    } else {
        idents_text(ids.drop_last()) + "."@ + ident_text(ids.last())
    }
}

/// "major.minor.patch", then "-" and the pre-release identifiers, then "+" and the
/// build identifiers, each part only where it has identifiers.
pub open spec fn semver_text(v: SemVerModel) -> Seq<char> {
    dec_text(v.major as nat) + "."@ + dec_text(v.minor as nat) + "."@ + dec_text(v.patch as nat)
        + (if v.pre_release.len() > 0 {
        "-"@ + idents_text(v.pre_release)
    } else {
        Seq::empty()
    }) + (if v.build.len() > 0 {
        "+"@ + idents_text(v.build)
    } else {
        Seq::empty()
    })
}

fn push_decimal(s: &mut String, n: u64)
    ensures
        final(s)@ == old(s)@ + dec_text(n as nat),
    decreases n,
{
    if n < 10 {
        push_char(s, ((48 + n) as u8) as char);
    } else {
        push_decimal(s, n / 10);
        push_char(s, ((48 + n % 10) as u8) as char);
        assert(dec_text(n as nat) == dec_text((n / 10) as nat).push(digit_char((n % 10) as int)));
    }
}

fn push_idents(s: &mut String, ids: &Vec<Ident>)
    ensures
        final(s)@ == old(s)@ + idents_text(ident_views(ids@)),
{
    let ghost start = s@;
    let mut i: usize = 0;
    while i < ids.len()
        invariant
            i <= ids@.len(),
            s@ == start + idents_text(ident_views(ids@).take(i as int)),
        decreases ids@.len() - i,
    {
        let ghost before = s@;
        if i > 0 {
            push_char(s, '.');
        }
        match &ids[i] {
            Ident::Numeric(n) => push_decimal(s, *n),
            Ident::AlphaNumeric(t) => push_str(s, t.as_str()),
        }
        proof {
            reveal_strlit(".");
            let pre = ident_views(ids@).take(i as int);
            let next = ident_views(ids@).take(i + 1);
            assert(next.drop_last() =~= pre);
            assert(next.last() == ids@[i as int]@);
            if i == 0 {
                assert(idents_text(pre) =~= Seq::<char>::empty());
                assert(s@ =~= start + idents_text(next));
            } else {
                assert(s@ =~= start + idents_text(next));
            }
        }
        i = i + 1;
    }
    assert(ident_views(ids@).take(i as int) =~= ident_views(ids@));
}

/// The text of a version, as node_semver writes it.
pub fn version_text(v: &SemVer) -> (r: String)
    ensures
        r@ == semver_text(v@),
{
    let mut s = String::new();
    push_decimal(&mut s, v.major);
    push_str(&mut s, ".");
    push_decimal(&mut s, v.minor);
    push_str(&mut s, ".");
    push_decimal(&mut s, v.patch);
    let ghost core = s@;
    if v.pre_release.len() > 0 {
        push_str(&mut s, "-");
        push_idents(&mut s, &v.pre_release);
    }
    let ghost mid = s@;
    if v.build.len() > 0 {
        push_str(&mut s, "+");
        push_idents(&mut s, &v.build);
    }
    proof {
        let pre: Seq<char> = if v@.pre_release.len() > 0 {
            "-"@ + idents_text(v@.pre_release)
        } else {
            Seq::empty()
        };
        let bld: Seq<char> = if v@.build.len() > 0 {
            "+"@ + idents_text(v@.build)
        } else {
            Seq::empty()
        };
        assert(mid =~= core + pre);
        assert(s@ =~= mid + bld);
    }
    s
}

/// Find the highest version from a list that satisfies a semver specifier, as the
/// text of the parsed version.
pub fn find_wanted(versions: &[String], specifier: &str) -> (r: Option<String>)
    ensures
        match r {
            None => forall|j: int|
                !#[trigger] is_candidate(views(versions@), specifier@, j),
            Some(t) => exists|i: int|
                is_best(views(versions@), specifier@, i) && t@ == semver_text(
                    parsed(versions@[i]@),
                ),
        },
{
    match pick_best_index(versions, specifier) {
        None => None,
        Some(i) => {
            let ghost vs = views(versions@);
            assert(vs[i as int] == versions@[i as int]@);
            match parse_version(versions[i].as_str()) {
                Some(v) => {
                    let t = version_text(&v);
                    assert(is_best(vs, specifier@, i as int));
                    Some(t)
                },
                None => {
                    assert(is_candidate(vs, specifier@, i as int));
                    None
                },
            }
        },
    }
}

} // verus!
