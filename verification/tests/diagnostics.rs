use mhf_runtime::diagnostics::{issue, push_issue, DependencyIssueKind, ModDiagnostic};
use mhf_runtime::version::VersionReq;

#[test]
fn issues_name_their_mod_unless_they_concern_a_dependency() {
    let own = issue("example.ui", None, None, DependencyIssueKind::Missing);
    assert_eq!(own.message, "example.ui：未安装");
    assert!(own.dependency.is_none());
    let requirement = VersionReq::parse("^1").unwrap();
    let dependency = issue("example.ui", Some("example.font"), Some(&requirement), DependencyIssueKind::VersionConflict);
    assert_eq!(dependency.message, "没有满足当前选择的兼容版本");
    assert_eq!(dependency.dependency.as_deref(), Some("example.font"));
    assert_eq!(dependency.requirement.as_ref().unwrap().to_text(), "^1");
}

#[test]
fn repeated_issues_are_recorded_once() {
    let mut diagnostic = ModDiagnostic::new();
    push_issue(&mut diagnostic, issue("a", Some("b"), None, DependencyIssueKind::Disabled));
    push_issue(&mut diagnostic, issue("a", Some("b"), None, DependencyIssueKind::Disabled));
    push_issue(&mut diagnostic, issue("a", Some("b"), None, DependencyIssueKind::Cycle));
    push_issue(&mut diagnostic, issue("a", None, None, DependencyIssueKind::Disabled));
    assert_eq!(diagnostic.issues.len(), 3);
    assert_eq!(diagnostic.issues[2].message, "a：已禁用");
}
