//! Semantic versions and version ranges, as npm writes them.
//!
//! Parsing, range matching and version precedence are done by the
//! `node_semver` crate; its precedence, written out here, is proved to be a
//! total preorder.
use vstd::prelude::*;
use crate::order::{text_order, Order, lemma_text_lt_total, lemma_text_lt_asymmetric, lemma_text_lt_transitive, lemma_text_lt_irreflexive};
use node_semver::{Identifier, Range, SemverError, Version};

verus! {

broadcast use vstd::seq::group_seq_axioms;

#[verifier::external_type_specification]
#[verifier::external_body]
pub struct ExRange(Range);

#[verifier::external_type_specification]
#[verifier::external_body]
pub struct ExSemverError(SemverError);

/// A pre-release or build identifier of a version.
#[derive(Debug)]
pub enum Ident {
    Numeric(u64),
    AlphaNumeric(String),
}

/// The value of an identifier.
pub enum IdentModel {
    Numeric(u64),
    AlphaNumeric(Seq<char>),
}

impl View for Ident {
    type V = IdentModel;

    open spec fn view(&self) -> IdentModel {
        match self {
            Ident::Numeric(n) => IdentModel::Numeric(*n),
            Ident::AlphaNumeric(s) => IdentModel::AlphaNumeric(s@),
        }
    }
}

/// A parsed semantic version.
#[derive(Debug)]
pub struct SemVersion {
    pub major: u64,
    pub minor: u64,
    pub patch: u64,
    pub build: Vec<Ident>,
    pub pre_release: Vec<Ident>,
}

/// The value of a parsed semantic version.
pub struct VersionModel {
    pub major: u64,
    pub minor: u64,
    pub patch: u64,
    pub build: Seq<IdentModel>,
    pub pre_release: Seq<IdentModel>,
}

impl View for SemVersion {
    type V = VersionModel;

    open spec fn view(&self) -> VersionModel {
        VersionModel {
            major: self.major,
            minor: self.minor,
            patch: self.patch,
            build: self.build@.map_values(|i: Ident| i@),
            pre_release: self.pre_release@.map_values(|i: Ident| i@),
        }
    }
}

/// What `node_semver::Version::parse` makes of a text: `None` where it
/// refuses the text.
pub uninterp spec fn parsed_version(text: Seq<char>) -> Option<VersionModel>;

/// Whether `node_semver::Range::parse` accepts a text.
pub uninterp spec fn range_parses(text: Seq<char>) -> bool;

/// Whether the range that `node_semver::Range::parse` makes of `range`
/// admits the version, by `node_semver::Range::satisfies`.
pub uninterp spec fn range_admits(range: Seq<char>, version: VersionModel) -> bool;

/// Parses a version with `node_semver::Version::parse`. The contract only
/// names the outcome (`parsed_version`): the grammar is the crate's.
#[verifier::external_body]
pub(crate) fn parse_version(text: &str) -> (r: Option<SemVersion>)
    ensures
        match r {
            Some(v) => parsed_version(text@) == Some(v@),
            None => parsed_version(text@) is None,
        },
{
    let conv = |i: Identifier| match i {
        Identifier::Numeric(n) => Ident::Numeric(n),
        Identifier::AlphaNumeric(s) => Ident::AlphaNumeric(s),
    };
    Version::parse(text).ok().map(|v| SemVersion {
        major: v.major, minor: v.minor, patch: v.patch,
        build: v.build.into_iter().map(conv).collect(),
        pre_release: v.pre_release.into_iter().map(conv).collect(),
    })
}

/// `x`, `X` and `*` stand for any number in a version.
pub open spec fn is_wildcard(c: char) -> bool {
    c == 'x' || c == 'X' || c == '*'
}

/// The largest number that `node_semver` reads as a version component
/// (its `MAX_SAFE_INTEGER`); a longer run of digits is a parse error.
pub const MAX_COMPONENT: u64 = 900_719_925_474_099;

/// Blanks, as the range grammar reads them.
pub open spec fn is_blank(c: char) -> bool {
    c == ' ' || c == '\t'
}

pub open spec fn is_digit(c: char) -> bool {
    '0' <= c && c <= '9'
}

/// The first position at or after `j` that holds no blank.
pub open spec fn blanks_end(s: Seq<char>, j: int) -> int
    decreases s.len() - j,
{
    if 0 <= j < s.len() && is_blank(s[j]) {
        blanks_end(s, j + 1)
    } else {
        j
    }
}

/// The position after an optional `c` at `j`.
pub open spec fn skip_char(s: Seq<char>, j: int, c: char) -> int {
    if 0 <= j < s.len() && s[j] == c {
        j + 1
    } else {
        j
    }
}

/// Where the first number of a partial version that starts at `j` stands:
/// after an optional `v` and blanks.
pub open spec fn version_body(s: Seq<char>, j: int) -> int {
    blanks_end(s, skip_char(s, j, 'v'))
}

/// The first position at or after `j` whose character is not a digit.
pub open spec fn digits_end(s: Seq<char>, j: int) -> int
    decreases s.len() - j,
{
    if 0 <= j < s.len() && is_digit(s[j]) {
        digits_end(s, j + 1)
    } else {
        j
    }
}

/// The value of the digits `s[j..k]`.
pub open spec fn digits_value(s: Seq<char>, j: int, k: int) -> int
    decreases k - j,
{
    if k <= j {
        0
    } else {
        10 * digits_value(s, j, k - 1) + ((s[k - 1] as u32) - ('0' as u32))
    }
}

/// At `j` stands a number that the parser accepts: a run of digits whose
/// value is at most `MAX_COMPONENT`.
pub open spec fn number_at(s: Seq<char>, j: int) -> bool {
    j < digits_end(s, j) && digits_value(s, j, digits_end(s, j)) <= MAX_COMPONENT
}

/// How many `|` stand directly before position `i`.
pub open spec fn pipes_before(s: Seq<char>, i: int) -> int
    decreases i,
{
    if 0 < i <= s.len() && s[i - 1] == '|' {
        1 + pipes_before(s, i - 1)
    } else {
        0
    }
}

/// Whether the parser begins a part of a range at `i`: at the start of the
/// text, after a blank, or after `||`. A run of `|` pairs off from its left
/// end, so a part follows it only where the run is of even length.
pub open spec fn part_start(s: Seq<char>, i: int) -> bool {
    ||| i == 0
    ||| 0 < i <= s.len() && is_blank(s[i - 1])
    ||| pipes_before(s, i) > 0 && pipes_before(s, i) % 2 == 0
}

/// A part of the range starts at `i` with `=`, and its version starts with
/// a wildcard (`=*`, `= x`, `=v X`).
pub open spec fn exact_wildcard_at(s: Seq<char>, i: int) -> bool {
    let j = version_body(s, blanks_end(s, i + 1));
    &&& part_start(s, i)
    &&& 0 <= i < s.len() && s[i] == '='
    &&& j < s.len() && is_wildcard(s[j])
}

/// Where the version of a tilde range whose `~` stands at `i` starts: after
/// blanks, an optional `>` and blanks again.
pub open spec fn tilde_version(s: Seq<char>, i: int) -> int {
    version_body(s, blanks_end(s, skip_char(s, blanks_end(s, i + 1), '>')))
}

/// A part of the range starts at `i` with `~`, and its version starts with
/// a wildcard (`~*`, `~> x`), or is a number, a wildcard and a number
/// (`~1.x.3`).
pub open spec fn tilde_wildcard_at(s: Seq<char>, i: int) -> bool {
    let j = tilde_version(s, i);
    let k = digits_end(s, j);
    &&& part_start(s, i)
    &&& 0 <= i < s.len() && s[i] == '~'
    &&& (j < s.len() && is_wildcard(s[j])) || (number_at(s, j) && k + 2 < s.len()
        && s[k] == '.' && is_wildcard(s[k + 1]) && s[k + 2] == '.' && number_at(s, k + 3))
}

/// Whether a range text is free of the forms on which
/// `node_semver::Range::parse` stops with `unreachable!`: an exact `=`
/// range whose major number is a wildcard, and a tilde `~` range whose major
/// number is a wildcard, or whose minor number is a wildcard and whose patch
/// is a number.
pub open spec fn range_text_safe(s: Seq<char>) -> bool {
    forall|i: int| 0 <= i < s.len() ==> !exact_wildcard_at(s, i) && !tilde_wildcard_at(s, i)
}

proof fn lemma_digits_end(s: Seq<char>, j: int)
    requires
        0 <= j <= s.len(),
    ensures
        j <= digits_end(s, j) <= s.len(),
        forall|m: int| j <= m < digits_end(s, j) ==> is_digit(#[trigger] s[m]),
    decreases s.len() - j,
{
    if j < s.len() && is_digit(s[j]) {
        lemma_digits_end(s, j + 1);
    }
}

proof fn lemma_digits_value_grows(s: Seq<char>, j: int, i: int, k: int)
    requires
        j <= i <= k <= s.len(),
        0 <= j,
        forall|m: int| j <= m < k ==> is_digit(#[trigger] s[m]),
    ensures
        0 <= digits_value(s, j, i) <= digits_value(s, j, k),
    decreases k - j,
{
    if k > j {
        if i == k {
            lemma_digits_value_grows(s, j, i - 1, k - 1);
        } else {
            lemma_digits_value_grows(s, j, i, k - 1);
        }
    }
}

fn is_wildcard_char(c: char) -> (r: bool)
    ensures
        r == is_wildcard(c),
{
    c == 'x' || c == 'X' || c == '*'
}

fn blanks_index(s: &Vec<char>, j: usize) -> (r: usize)
    requires
        j <= s@.len(),
    ensures
        r as int == blanks_end(s@, j as int),
        j <= r <= s@.len(),
    decreases s@.len() - j,
{
    if j < s.len() && (s[j] == ' ' || s[j] == '\t') {
        blanks_index(s, j + 1)
    } else {
        j
    }
}

fn skip_char_index(s: &Vec<char>, j: usize, c: char) -> (r: usize)
    requires
        j <= s@.len(),
    ensures
        r as int == skip_char(s@, j as int, c),
        j <= r <= s@.len(),
{
    if j < s.len() && s[j] == c {
        j + 1
    } else {
        j
    }
}

fn digits_index(s: &Vec<char>, j: usize) -> (r: usize)
    requires
        j <= s@.len(),
    ensures
        r as int == digits_end(s@, j as int),
        j <= r <= s@.len(),
    decreases s@.len() - j,
{
    if j < s.len() && '0' <= s[j] && s[j] <= '9' {
        digits_index(s, j + 1)
    } else {
        j
    }
}

/// Tests `number_at`.
fn number_ok(s: &Vec<char>, j: usize) -> (r: bool)
    requires
        j <= s@.len(),
    ensures
        r == number_at(s@, j as int),
{
    let k = digits_index(s, j);
    proof {
        lemma_digits_end(s@, j as int);
    }
    if k == j {
        return false;
    }
    let mut v: u64 = 0;
    let mut i = j;
    while i < k
        invariant
            j <= i <= k <= s@.len(),
            k as int == digits_end(s@, j as int),
            forall|m: int| j <= m < k ==> is_digit(#[trigger] s@[m]),
            v as int == digits_value(s@, j as int, i as int),
            v <= MAX_COMPONENT,
        decreases k - i,
    {
        let d = (s[i] as u32 - '0' as u32) as u64;
        let nv = v * 10 + d;
        if nv > MAX_COMPONENT {
            proof {
                lemma_digits_value_grows(s@, j as int, i + 1, k as int);
            }
            return false;
        }
        v = nv;
        i = i + 1;
    }
    true
}

fn pipes_count(s: &Vec<char>, i: usize) -> (r: usize)
    requires
        i <= s@.len(),
    ensures
        r as int == pipes_before(s@, i as int),
        r <= i,
    decreases i,
{
    if i > 0 && s[i - 1] == '|' {
        1 + pipes_count(s, i - 1)
    } else {
        0
    }
}

fn part_starts_at(s: &Vec<char>, i: usize) -> (r: bool)
    requires
        i <= s@.len(),
    ensures
        r == part_start(s@, i as int),
{
    if i == 0 || s[i - 1] == ' ' || s[i - 1] == '\t' {
        return true;
    }
    let p = pipes_count(s, i);
    p > 0 && p % 2 == 0
}

/// Tests `range_text_safe`.
pub fn range_text_is_safe(text: &str) -> (r: bool)
    ensures
        r == range_text_safe(text@),
{
    let n = text.unicode_len();
    let mut s: Vec<char> = Vec::new();
    for i in 0..n
        invariant
            n == text@.len(),
            s@ == text@.take(i as int),
    {
        s.push(text.get_char(i));
        assert(s@ =~= text@.take(i + 1));
    }
    assert(s@ =~= text@);
    for i in 0..n
        invariant
            n == s@.len(),
            s@ == text@,
            forall|j: int| 0 <= j < i ==> !exact_wildcard_at(s@, j) && !tilde_wildcard_at(s@, j),
    {
        if (s[i] == '=' || s[i] == '~') && part_starts_at(&s, i) {
            if s[i] == '=' {
                let a = blanks_index(&s, i + 1);
                let j = blanks_index(&s, skip_char_index(&s, a, 'v'));
                if j < n && is_wildcard_char(s[j]) {
                    assert(exact_wildcard_at(s@, i as int));
                    return false;
                }
            } else {
                let a = blanks_index(&s, i + 1);
                let b = blanks_index(&s, skip_char_index(&s, a, '>'));
                let j = blanks_index(&s, skip_char_index(&s, b, 'v'));
                if j < n && is_wildcard_char(s[j]) {
                    assert(tilde_wildcard_at(s@, i as int));
                    return false;
                }
                let k = digits_index(&s, j);
                if number_ok(&s, j) && k < n && n - k > 2 && s[k] == '.' && is_wildcard_char(s[k + 1])
                    && s[k + 2] == '.' && number_ok(&s, k + 3) {
                    assert(tilde_wildcard_at(s@, i as int));
                    return false;
                }
            }
        }
    }
    true
}

/// A version range together with the text it was parsed from. Its fields
/// are private and `VersionRange::parse` is the only place that makes one,
/// so `range` is always what `node_semver` parsed from `text`.
pub struct VersionRange {
    text: String,
    range: Range,
}

impl VersionRange {
    /// The text the range was parsed from.
    pub closed spec fn source(&self) -> Seq<char> {
        self.text@
    }

    /// Parses a range with `node_semver::Range::parse`; the contract states
    /// that the text is kept, and names (`range_parses`) whether the crate
    /// accepts it. The texts on which the parser panics are exactly those
    /// that `range_text_safe` refuses; those are left out.
    #[verifier::external_body]
    pub(crate) fn parse(text: &str) -> (r: Result<VersionRange, SemverError>)
        requires
            range_text_safe(text@),
        ensures
            r is Ok <==> range_parses(text@),
            r matches Ok(x) ==> x.source() == text@,
    {
        Range::parse(text).map(|range| VersionRange { text: text.to_string(), range })
    }

    /// Whether the range admits the version, by `node_semver::Range::satisfies`
    /// on the range parsed from `source()`; the contract names the outcome
    /// (`range_admits`).
    #[verifier::external_body]
    pub(crate) fn satisfies(&self, version: &SemVersion) -> (b: bool)
        ensures
            b == range_admits(self.source(), version@),
    {
        let conv = |i: &Ident| match i {
            Ident::Numeric(n) => Identifier::Numeric(*n),
            Ident::AlphaNumeric(s) => Identifier::AlphaNumeric(s.clone()),
        };
        self.range.satisfies(&Version {
            major: version.major, minor: version.minor, patch: version.patch,
            build: version.build.iter().map(conv).collect(),
            pre_release: version.pre_release.iter().map(conv).collect(),
        })
    }
}

/// The order of numbers.
pub open spec fn num_order(a: u64, b: u64) -> Order {
    if a < b {
        Order::Less
    } else if a == b {
        Order::Equal
    } else {
        Order::Greater
    }
}

/// The order of identifiers: numbers by value, before any alphanumeric
/// identifier; alphanumeric identifiers as texts.
pub open spec fn ident_order(a: IdentModel, b: IdentModel) -> Order {
    match (a, b) {
        (IdentModel::Numeric(x), IdentModel::Numeric(y)) => num_order(x, y),
        (IdentModel::Numeric(_), IdentModel::AlphaNumeric(_)) => Order::Less,
        (IdentModel::AlphaNumeric(_), IdentModel::Numeric(_)) => Order::Greater,
        (IdentModel::AlphaNumeric(s), IdentModel::AlphaNumeric(t)) => text_order(s, t),
    }
}

/// Lexicographic order of identifier lists.
pub open spec fn idents_order(a: Seq<IdentModel>, b: Seq<IdentModel>) -> Order
    decreases a.len(),
{
    if a.len() == 0 {
        if b.len() == 0 {
            Order::Equal
        } else {
            Order::Less
        }
    } else if b.len() == 0 {
        Order::Greater
    } else {
        match ident_order(a[0], b[0]) {
            Order::Equal => idents_order(a.drop_first(), b.drop_first()),
            o => o,
        }
    }
}

/// Version precedence, as `node_semver::Version`'s `Ord` defines it: major,
/// minor and patch numbers; then a version without pre-release identifiers
/// above one with them; then the pre-release identifiers. Build metadata is
/// not compared.
pub open spec fn version_order(a: VersionModel, b: VersionModel) -> Order {
    if a.major != b.major {
        num_order(a.major, b.major)
    } else if a.minor != b.minor {
        num_order(a.minor, b.minor)
    } else if a.patch != b.patch {
        num_order(a.patch, b.patch)
    } else if a.pre_release.len() == 0 && b.pre_release.len() == 0 {
        Order::Equal
    } else if a.pre_release.len() == 0 {
        Order::Greater
    } else if b.pre_release.len() == 0 {
        Order::Less
    } else {
        idents_order(a.pre_release, b.pre_release)
    }
}

/// The opposite outcome.
pub open spec fn flip(o: Order) -> Order {
    match o {
        Order::Less => Order::Greater,
        Order::Equal => Order::Equal,
        Order::Greater => Order::Less,
    }
}

proof fn lemma_text_order_flip(a: Seq<char>, b: Seq<char>)
    ensures
        text_order(b, a) == flip(text_order(a, b)),
{
    lemma_text_lt_total(a, b);
    lemma_text_lt_asymmetric(a, b);
}

proof fn lemma_text_order_trans(a: Seq<char>, b: Seq<char>, c: Seq<char>)
    requires
        text_order(a, b) != Order::Greater,
        text_order(b, c) != Order::Greater,
    ensures
        text_order(a, c) != Order::Greater,
        text_order(a, b) == Order::Less || text_order(b, c) == Order::Less ==> text_order(a, c)
            == Order::Less,
{
    lemma_text_lt_total(a, b);
    lemma_text_lt_total(b, c);
    lemma_text_lt_total(a, c);
    if a != b && b != c {
        lemma_text_lt_transitive(a, b, c);
    }
    lemma_text_lt_irreflexive(a);
    lemma_text_lt_asymmetric(a, c);
}

proof fn lemma_ident_order_flip(a: IdentModel, b: IdentModel)
    ensures
        ident_order(b, a) == flip(ident_order(a, b)),
{
    match (a, b) {
        (IdentModel::AlphaNumeric(s), IdentModel::AlphaNumeric(t)) => lemma_text_order_flip(s, t),
        _ => {},
    }
}

proof fn lemma_ident_order_trans(a: IdentModel, b: IdentModel, c: IdentModel)
    requires
        ident_order(a, b) != Order::Greater,
        ident_order(b, c) != Order::Greater,
    ensures
        ident_order(a, c) != Order::Greater,
        ident_order(a, b) == Order::Less || ident_order(b, c) == Order::Less ==> ident_order(a, c)
            == Order::Less,
{
    match (a, b, c) {
        (IdentModel::AlphaNumeric(s), IdentModel::AlphaNumeric(t), IdentModel::AlphaNumeric(u)) => {
            lemma_text_order_trans(s, t, u);
        },
        _ => {},
    }
}

proof fn lemma_idents_order_flip(a: Seq<IdentModel>, b: Seq<IdentModel>)
    ensures
        idents_order(b, a) == flip(idents_order(a, b)),
    decreases a.len(),
{
    if a.len() > 0 && b.len() > 0 {
        lemma_ident_order_flip(a[0], b[0]);
        lemma_idents_order_flip(a.drop_first(), b.drop_first());
    }
}

proof fn lemma_idents_order_trans(a: Seq<IdentModel>, b: Seq<IdentModel>, c: Seq<IdentModel>)
    requires
        idents_order(a, b) != Order::Greater,
        idents_order(b, c) != Order::Greater,
    ensures
        idents_order(a, c) != Order::Greater,
    decreases a.len(),
{
    if a.len() > 0 && b.len() > 0 && c.len() > 0 {
        lemma_ident_order_trans(a[0], b[0], c[0]);
        if ident_order(a[0], b[0]) == Order::Equal && ident_order(b[0], c[0]) == Order::Equal {
            lemma_idents_order_trans(a.drop_first(), b.drop_first(), c.drop_first());
        }
    }
}

/// Precedence is antisymmetric: comparing the other way round gives the
/// opposite outcome.
pub proof fn lemma_version_order_flip(a: VersionModel, b: VersionModel)
    ensures
        version_order(b, a) == flip(version_order(a, b)),
{
    lemma_idents_order_flip(a.pre_release, b.pre_release);
}

/// Precedence is transitive.
pub proof fn lemma_version_order_trans(a: VersionModel, b: VersionModel, c: VersionModel)
    requires
        version_order(a, b) != Order::Greater,
        version_order(b, c) != Order::Greater,
    ensures
        version_order(a, c) != Order::Greater,
{
    if a.major == b.major && b.major == c.major && a.minor == b.minor && b.minor == c.minor
        && a.patch == b.patch && b.patch == c.patch && a.pre_release.len() > 0
        && b.pre_release.len() > 0 && c.pre_release.len() > 0 {
        lemma_idents_order_trans(a.pre_release, b.pre_release, c.pre_release);
    }
}

/// Every version is as high as itself.
pub proof fn lemma_version_order_reflexive(a: VersionModel)
    ensures
        version_order(a, a) == Order::Equal,
{
    lemma_version_order_flip(a, a);
}

/// Whether `a`'s version numbers come before `b`'s: a smaller major
/// number, or the same major and a smaller minor number, or the same major
/// and minor and a smaller patch number.
pub open spec fn numbers_below(a: VersionModel, b: VersionModel) -> bool {
    ||| a.major < b.major
    ||| a.major == b.major && a.minor < b.minor
    ||| a.major == b.major && a.minor == b.minor && a.patch < b.patch
}

/// Precedence is decided by the version numbers first: a version whose
/// numbers come before another's has lower precedence, whatever the
/// pre-release and build of either.
pub proof fn lemma_numbers_decide_order(a: VersionModel, b: VersionModel)
    requires
        numbers_below(a, b),
    ensures
        version_order(a, b) == Order::Less,
        version_order(b, a) == Order::Greater,
{
}

/// With the same numbers, a pre-release has lower precedence than the
/// release, and two releases are equal in precedence.
pub proof fn lemma_release_after_prerelease(a: VersionModel, b: VersionModel)
    requires
        a.major == b.major,
        a.minor == b.minor,
        a.patch == b.patch,
        b.pre_release.len() == 0,
    ensures
        a.pre_release.len() > 0 ==> version_order(a, b) == Order::Less && version_order(b, a)
            == Order::Greater,
        a.pre_release.len() == 0 ==> version_order(a, b) == Order::Equal,
{
}

/// Build metadata takes no part in precedence: two versions that differ in
/// it alone compare alike against every version.
pub proof fn lemma_build_ignored(a: VersionModel, b: VersionModel, c: VersionModel)
    requires
        a.major == b.major,
        a.minor == b.minor,
        a.patch == b.patch,
        a.pre_release == b.pre_release,
    ensures
        version_order(a, c) == version_order(b, c),
        version_order(c, a) == version_order(c, b),
        version_order(a, b) == Order::Equal,
{
    lemma_version_order_reflexive(a);
}

/// Compares two versions with `node_semver::Version`'s `Ord`. The contract
/// states the outcome by `version_order`, which writes out that `Ord`
/// (node_semver's `impl Ord for Version`, with the derived `Ord` of
/// `Identifier` and the lexicographic `Ord` of `Vec`).
#[verifier::external_body]
pub(crate) fn compare_versions(a: &SemVersion, b: &SemVersion) -> (r: Order)
    ensures
        r == version_order(a@, b@),
{
    let conv = |i: &Ident| match i {
        Ident::Numeric(n) => Identifier::Numeric(*n),
        Ident::AlphaNumeric(s) => Identifier::AlphaNumeric(s.clone()),
    };
    let ver = |v: &SemVersion| Version { major: v.major, minor: v.minor, patch: v.patch,
        build: v.build.iter().map(conv).collect(), pre_release: v.pre_release.iter().map(conv).collect() };
    match ver(a).cmp(&ver(b)) {
        std::cmp::Ordering::Less => Order::Less,
        std::cmp::Ordering::Equal => Order::Equal,
        std::cmp::Ordering::Greater => Order::Greater,
    }
}

} // verus!
