//! Dependency issues reported for each Mod when resolution fails.

use vstd::prelude::*;
use crate::manifest::Candidate;
use crate::text::{push_str, string_of};
use crate::version::VersionReq;

verus! {

/// What went wrong with a Mod or one of its dependencies.
#[derive(Clone, Copy, Debug, PartialEq, Eq, Structural)]
pub enum DependencyIssueKind {
    Missing,
    Disabled,
    VersionConflict,
    Cycle,
    DependencyFailed,
    InvalidPackage,
    InvalidVersion,
}

/// One problem of a Mod: with its own selection (`dependency` is `None`),
/// or with one of its dependencies.
pub struct DependencyIssue {
    pub dependency: Option<String>,
    pub requirement: Option<VersionReq>,
    pub kind: DependencyIssueKind,
    pub message: String,
}

/// The candidate inspected for a Mod and the problems that belong to it. A
/// missing or unavailable selection has no candidate; a healthy one has no
/// issues.
pub struct ModDiagnostic {
    pub candidate: Option<Candidate>,
    pub issues: Vec<DependencyIssue>,
}

/// The reason shown for each kind of issue.
pub open spec fn reason(kind: DependencyIssueKind) -> Seq<char> {
    match kind {
        DependencyIssueKind::Missing => "未安装"@,
        DependencyIssueKind::Disabled => "已禁用"@,
        DependencyIssueKind::VersionConflict => "没有满足当前选择的兼容版本"@,
        DependencyIssueKind::Cycle => "存在循环依赖"@,
        DependencyIssueKind::DependencyFailed => "依赖项不可用"@,
        DependencyIssueKind::InvalidPackage => "Mod 包无效"@,
        DependencyIssueKind::InvalidVersion => "版本要求无效"@,
    }
}

fn reason_text(kind: DependencyIssueKind) -> (r: &'static str)
    ensures
        r@ == reason(kind),
{
    match kind {
        DependencyIssueKind::Missing => "未安装",
        DependencyIssueKind::Disabled => "已禁用",
        DependencyIssueKind::VersionConflict => "没有满足当前选择的兼容版本",
        DependencyIssueKind::Cycle => "存在循环依赖",
        DependencyIssueKind::DependencyFailed => "依赖项不可用",
        DependencyIssueKind::InvalidPackage => "Mod 包无效",
        DependencyIssueKind::InvalidVersion => "版本要求无效",
    }
}

impl ModDiagnostic {
    /// A diagnostic with no candidate and no issues.
    pub fn new() -> (r: ModDiagnostic)
        ensures
            r.candidate is None,
            r.issues@.len() == 0,
    {
        ModDiagnostic { candidate: None, issues: Vec::new() }
    }
}

/// The issue of Mod `id`: with a dependency, the bare reason; with its own
/// selection, "<id>：<reason>".
pub fn issue(
    id: &str,
    dependency: Option<&str>,
    requirement: Option<&VersionReq>,
    kind: DependencyIssueKind,
) -> (r: DependencyIssue)
    ensures
        r.kind == kind,
        r.dependency is Some == dependency is Some,
        r.dependency matches Some(d) ==> d@ == dependency.unwrap()@,
        r.requirement is Some == requirement is Some,
        r.requirement matches Some(q) ==> q == *requirement.unwrap(),
        r.message@ == if dependency is Some {
            reason(kind)
        } else {
            id@ + "："@ + reason(kind)
        },
{
    let reason = reason_text(kind);
    let message = match dependency {
        Some(_) => reason.to_owned(),
        None => {
            let mut out: Vec<char> = Vec::new();
            push_str(&mut out, id);
            push_str(&mut out, "：");
            push_str(&mut out, reason);
            string_of(&out)
        },
    };
    DependencyIssue {
        dependency: match dependency {
            Some(d) => Some(d.to_owned()),
            None => None,
        },
        requirement: match requirement {
            Some(q) => Some(q.duplicate()),
            None => None,
        },
        kind,
        message,
    }
}

/// Two issues are about the same thing: the same dependency, requirement
/// and kind.
pub open spec fn same_issue(a: DependencyIssue, b: DependencyIssue) -> bool {
    &&& a.kind == b.kind
    &&& a.dependency is Some == b.dependency is Some
    &&& (a.dependency is Some ==> a.dependency.unwrap()@ == b.dependency.unwrap()@)
    &&& a.requirement is Some == b.requirement is Some
    &&& (a.requirement is Some ==> a.requirement.unwrap().shown() == b.requirement.unwrap().shown())
}

fn same_optional_text(a: &Option<String>, b: &Option<String>) -> (r: bool)
    ensures
        r == (a is Some == b is Some && (a is Some ==> a.unwrap()@ == b.unwrap()@)),
{
    match (a, b) {
        (Some(x), Some(y)) => crate::text::same_text(x.as_str(), y.as_str()),
        (None, None) => true,
        _ => false,
    }
}

fn same_requirement(a: &Option<VersionReq>, b: &Option<VersionReq>) -> (r: bool)
    ensures
        r == (a is Some == b is Some && (a is Some ==> a.unwrap().shown() == b.unwrap().shown())),
{
    match (a, b) {
        (Some(x), Some(y)) => {
            let p = x.to_text();
            let q = y.to_text();
            crate::text::same_text(p.as_str(), q.as_str())
        },
        (None, None) => true,
        _ => false,
    }
}

/// Records `issue` unless the diagnostic already has the same issue.
pub fn push_issue(diagnostic: &mut ModDiagnostic, issue: DependencyIssue)
    ensures
        final(diagnostic).candidate == old(diagnostic).candidate,
        (exists|i: int| 0 <= i < old(diagnostic).issues@.len() && same_issue(#[trigger] old(diagnostic).issues@[i], issue))
            ==> final(diagnostic).issues@ == old(diagnostic).issues@,
        !(exists|i: int| 0 <= i < old(diagnostic).issues@.len() && same_issue(#[trigger] old(diagnostic).issues@[i], issue))
            ==> final(diagnostic).issues@ == old(diagnostic).issues@.push(issue),
{
    let mut i: usize = 0;
    while i < diagnostic.issues.len()
        invariant
            i <= diagnostic.issues@.len(),
            diagnostic.issues@ == old(diagnostic).issues@,
            diagnostic.candidate == old(diagnostic).candidate,
            forall|k: int| 0 <= k < i ==> !same_issue(#[trigger] diagnostic.issues@[k], issue),
        decreases diagnostic.issues.len() - i,
    {
        let existing = &diagnostic.issues[i];
        if existing.kind == issue.kind && same_optional_text(&existing.dependency, &issue.dependency)
            && same_requirement(&existing.requirement, &issue.requirement) {
            return;
        }
        i = i + 1;
    }
    diagnostic.issues.push(issue);
}

} // verus!
