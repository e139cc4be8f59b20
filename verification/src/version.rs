//! Package versions and version requirements. Parsing, matching and ordering
//! follow Semantic Versioning as implemented by the `semver` crate.

use vstd::prelude::*;
use crate::text::{decimal, decimal_digits, push_chars, string_of};

verus! {

/// Whether `semver::Version::parse` accepts `text`.
pub uninterp spec fn semver_version_valid(text: Seq<char>) -> bool;

/// Whether `semver::VersionReq::parse` accepts `text`.
pub uninterp spec fn semver_req_valid(text: Seq<char>) -> bool;

/// The message of `semver::Version::parse`'s error on `text`.
pub uninterp spec fn semver_version_error(text: Seq<char>) -> Seq<char>;

/// The message of `semver::VersionReq::parse`'s error on `text`.
pub uninterp spec fn semver_req_error(text: Seq<char>) -> Seq<char>;

/// The canonical text of the requirement parsed from `text`.
pub uninterp spec fn semver_req_display(text: Seq<char>) -> Seq<char>;

/// Whether the requirement parsed from `req` matches the version parsed from
/// `version` (false when either does not parse).
pub uninterp spec fn semver_matches(req: Seq<char>, version: Seq<char>) -> bool;

/// `Ord::cmp` of the versions parsed from `a` and `b`, as -1, 0 or 1 (0
/// when either does not parse). Unlike Semantic Versioning precedence,
/// this order also compares build metadata.
pub uninterp spec fn semver_order(a: Seq<char>, b: Seq<char>) -> i8;

/// `semver::Version::parse(text)`: Ok when the text is a valid version,
/// otherwise the parser's error message, which depends on the text alone.
#[verifier::external_body]
fn parse_version_text(text: &str) -> (r: Result<(), String>)
    ensures
        r is Ok == semver_version_valid(text@),
        r matches Err(m) ==> m@ == semver_version_error(text@),
{
    match semver::Version::parse(text) {
        Ok(_) => Ok(()),
        Err(error) => Err(error.to_string()),
    }
}

/// `semver::VersionReq::parse(text)` and the parsed requirement's `Display`
/// text: Ok with that canonical text when the requirement is valid, otherwise
/// the parser's error message.
#[verifier::external_body]
fn parse_requirement_text(text: &str) -> (r: Result<String, String>)
    ensures
        r is Ok == semver_req_valid(text@),
        r matches Ok(shown) ==> shown@ == semver_req_display(text@),
        r matches Err(m) ==> m@ == semver_req_error(text@),
{
    match semver::VersionReq::parse(text) {
        Ok(requirement) => Ok(requirement.to_string()),
        Err(error) => Err(error.to_string()),
    }
}

/// `semver::VersionReq::matches`, applied to the requirement and version
/// parsed from the two texts; false when either text does not parse.
#[verifier::external_body]
fn requirement_matches(req: &str, version: &str) -> (r: bool)
    ensures
        r == semver_matches(req@, version@),
{
    match (semver::VersionReq::parse(req), semver::Version::parse(version)) {
        (Ok(req), Ok(version)) => req.matches(&version),
        _ => false,
    }
}

/// `Ord::cmp` of the versions parsed from the two texts, as -1, 0 or 1; 0
/// when either text does not parse. `Version` derives `Ord`, a total order:
/// comparing the other way round gives the opposite answer, and a version
/// newer than `b` is newer than every version older than `b`.
#[verifier::external_body]
fn compare_version_texts(a: &str, b: &str) -> (r: i8)
    ensures
        r == semver_order(a@, b@),
        -1 <= r <= 1,
        r == -semver_order(b@, a@),
        r == 1 ==> forall|c: Seq<char>| #[trigger] semver_order(b@, c) == 1 ==> semver_order(a@, c) == 1,
{
    match (semver::Version::parse(a), semver::Version::parse(b)) {
        (Ok(a), Ok(b)) => match a.cmp(&b) {
            std::cmp::Ordering::Less => -1,
            std::cmp::Ordering::Equal => 0,
            std::cmp::Ordering::Greater => 1,
        },
        _ => 0,
    }
}

/// A package version, held as its Semantic Versioning text.
#[derive(Clone, Debug, PartialEq, Eq)]
pub struct Version {
    text: String,
}

impl View for Version {
    type V = Seq<char>;

    closed spec fn view(&self) -> Seq<char> {
        self.text@
    }
}

/// "<major>.<minor>.<patch>".
pub open spec fn release_text(major: u64, minor: u64, patch: u64) -> Seq<char> {
    decimal_digits(major as nat) + seq!['.'] + decimal_digits(minor as nat) + seq!['.']
        + decimal_digits(patch as nat)
}

impl Version {
    /// Parses a Semantic Versioning version such as "1.2.3-beta.1".
    pub fn parse(text: &str) -> (r: Result<Version, String>)
        ensures
            r is Ok == semver_version_valid(text@),
            r matches Ok(v) ==> v@ == text@,
            r matches Err(m) ==> m@ == semver_version_error(text@),
    {
        match parse_version_text(text) {
            Ok(()) => Ok(Version { text: text.to_owned() }),
            Err(message) => Err(message),
        }
    }

    /// A release version without pre-release or build metadata.
    pub fn new(major: u64, minor: u64, patch: u64) -> (r: Version)
        ensures
            r@ == release_text(major, minor, patch),
    {
        let mut text = decimal(major);
        text.push('.');
        let minor_digits = decimal(minor);
        push_chars(&mut text, &minor_digits);
        text.push('.');
        let patch_digits = decimal(patch);
        push_chars(&mut text, &patch_digits);
        Version { text: string_of(&text) }
    }

    /// The version's text, as `Display` shows it.
    pub fn as_str(&self) -> (r: &str)
        ensures
            r@ == self@,
    {
        self.text.as_str()
    }

    /// A copy of this version.
    pub fn duplicate(&self) -> (r: Version)
        ensures
            r == *self,
    {
        Version { text: self.text.clone() }
    }

    /// `Ord::cmp` of two versions, as -1, 0 or 1.
    pub fn compare(&self, other: &Version) -> (r: i8)
        ensures
            r == semver_order(self@, other@),
            -1 <= r <= 1,
            r == -semver_order(other@, self@),
            r == 1 ==> forall|c: Seq<char>| #[trigger] semver_order(other@, c) == 1 ==> semver_order(self@, c) == 1,
    {
        compare_version_texts(self.text.as_str(), other.text.as_str())
    }

    /// Whether the two versions are the same text.
    pub fn same(&self, other: &Version) -> (r: bool)
        ensures
            r == (self@ == other@),
    {
        crate::text::same_text(self.text.as_str(), other.text.as_str())
    }
}

/// A version requirement such as "^1.0" or ">=1.2, <2". Two requirements
/// are compared through their canonical text (`shown`), not as written.
#[derive(Clone, Debug)]
pub struct VersionReq {
    text: String,
    shown: String,
}

impl View for VersionReq {
    type V = Seq<char>;

    closed spec fn view(&self) -> Seq<char> {
        self.text@
    }
}

impl VersionReq {
    /// Parses a requirement.
    pub fn parse(text: &str) -> (r: Result<VersionReq, String>)
        ensures
            r is Ok == semver_req_valid(text@),
            r matches Ok(q) ==> q@ == text@ && q.shown() == semver_req_display(text@),
            r matches Err(m) ==> m@ == semver_req_error(text@),
    {
        match parse_requirement_text(text) {
            Ok(shown) => Ok(VersionReq { text: text.to_owned(), shown }),
            Err(message) => Err(message),
        }
    }

    /// "*": any release version. Like every requirement, it matches a
    /// pre-release only when it names that pre-release's exact release.
    pub fn star() -> (r: VersionReq)
        ensures
            r@ == "*"@,
            r.shown() == "*"@,
    {
        VersionReq { text: "*".to_owned(), shown: "*".to_owned() }
    }

    /// Whether `version` satisfies this requirement.
    pub fn matches(&self, version: &Version) -> (r: bool)
        ensures
            r == semver_matches(self@, version@),
    {
        requirement_matches(self.text.as_str(), version.text.as_str())
    }

    /// The requirement's canonical text, as `Display` shows it.
    pub closed spec fn shown(&self) -> Seq<char> {
        self.shown@
    }

    /// The requirement's canonical text, as `Display` shows it.
    pub fn to_text(&self) -> (r: String)
        ensures
            r@ == self.shown(),
    {
        self.shown.clone()
    }

    /// Whether two requirements are the same requirement: their canonical
    /// texts agree, however they were written.
    pub fn same(&self, other: &VersionReq) -> (r: bool)
        ensures
            r == (self.shown() == other.shown()),
    {
        crate::text::same_text(self.shown.as_str(), other.shown.as_str())
    }

    /// A copy of this requirement.
    pub fn duplicate(&self) -> (r: VersionReq)
        ensures
            r == *self,
    {
        VersionReq { text: self.text.clone(), shown: self.shown.clone() }
    }
}

} // verus!
