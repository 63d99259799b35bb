use mekle::error::Error;
use mekle::fs::EntryKind;
use mekle::path::PathName;
use mekle::scan::{DirectoryScan, Exclusions, Finding, WalkStep};

fn path(text: &str) -> PathName {
    PathName::parse(text)
}

fn exclusions(roots: &[&str], patterns: &[&str]) -> Result<Exclusions, Error> {
    Exclusions::new(
        &roots.iter().map(|root| path(root)).collect::<Vec<_>>(),
        &patterns.iter().map(|pattern| (*pattern).to_owned()).collect::<Vec<_>>(),
    )
}

fn no_kind(_: &PathName) -> Result<Option<EntryKind>, String> {
    Ok(None)
}

fn git_dir_kind(p: &PathName) -> Result<Option<EntryKind>, String> {
    if p.to_text().ends_with(".git") {
        Ok(Some(EntryKind::Directory))
    } else {
        Ok(None)
    }
}

fn no_text(_: &PathName) -> Result<Option<String>, String> {
    Ok(None)
}

fn no_dir(_: &PathName) -> Result<bool, String> {
    Ok(false)
}

#[test]
fn a_matcher_cannot_reach_a_sibling_with_a_prefix_name() {
    let exclusions = exclusions(&["/repos/bar", "/repos/barley"], &["/ley/**"]).expect("valid patterns");

    assert!(!exclusions.matches(&path("/repos/barley/repo"), true));
}

#[test]
fn invalid_patterns_name_the_rejected_pattern() {
    let error = exclusions(&["/repos"], &["[z-a]"]).expect_err("an invalid pattern");

    assert!(matches!(&error, Error::InvalidExcludePattern { pattern } if pattern.contains("[z-a]")), "{error:?}");
}

#[test]
fn anchored_and_recursive_patterns_both_apply() {
    let exclusions = exclusions(&["/root"], &["/archive/", "**/vendor/"]).expect("valid patterns");

    assert!(exclusions.matches(&path("/root/archive"), true));
    assert!(exclusions.matches(&path("/root/nested/vendor"), true));
    assert!(!exclusions.matches(&path("/root/nested/archive"), true));
    assert!(!exclusions.matches(&path("/root/keep"), true));
    assert!(!exclusions.matches(&path("/root/archive"), false));
}

#[test]
fn patterns_apply_to_each_search_directory() {
    let exclusions = exclusions(&["/first", "/second"], &["/archive/"]).expect("valid patterns");

    assert!(exclusions.matches(&path("/first/archive"), true));
    assert!(exclusions.matches(&path("/second/archive"), true));
    assert!(!exclusions.matches(&path("/third/archive"), true));
}

#[test]
fn without_search_directories_an_invalid_pattern_is_still_refused() {
    let outcome = exclusions(&[], &["[z-a]"]);

    assert!(matches!(outcome, Err(Error::InvalidExcludePattern { pattern }) if pattern == "[z-a]"));
}

#[test]
fn without_search_directories_valid_patterns_exclude_nothing() {
    let exclusions = exclusions(&[], &["target/"]).expect("valid patterns");

    assert!(!exclusions.matches(&path("/anything/target"), true));
}

#[test]
fn search_roots_and_unknown_entries_are_passed_over() {
    let exclusions = exclusions(&["/root"], &[]).expect("no patterns");
    let markers = vec!["Cargo.toml".to_owned()];

    let root = mekle::scan::visit(&path("/root"), 0, Some(EntryKind::Directory), &exclusions, &markers, &no_kind, &no_text, &no_dir);
    let unknown = mekle::scan::visit(&path("/root/Cargo.toml"), 1, None, &exclusions, &markers, &no_kind, &no_text, &no_dir);

    assert_eq!(root.step, WalkStep::Continue);
    assert!(root.finding.is_none());
    assert_eq!(unknown.step, WalkStep::Continue);
    assert!(unknown.finding.is_none());
}

#[test]
fn an_excluded_entry_is_pruned() {
    let exclusions = exclusions(&["/root"], &["skip/"]).expect("valid patterns");
    let markers = vec!["Cargo.toml".to_owned()];

    let visit = mekle::scan::visit(&path("/root/skip"), 1, Some(EntryKind::Directory), &exclusions, &markers, &no_kind, &no_text, &no_dir);

    assert_eq!(visit.step, WalkStep::Skip);
    assert!(visit.finding.is_none());
}

#[test]
fn markers_are_recorded_and_marker_directories_are_not_entered() {
    let exclusions = exclusions(&["/root"], &[]).expect("no patterns");
    let markers = vec!["Cargo.toml".to_owned(), "node_modules".to_owned()];

    let file = mekle::scan::visit(&path("/root/app/Cargo.toml"), 2, Some(EntryKind::File), &exclusions, &markers, &no_kind, &no_text, &no_dir);
    let dir = mekle::scan::visit(&path("/root/app/node_modules"), 2, Some(EntryKind::Directory), &exclusions, &markers, &no_kind, &no_text, &no_dir);
    let socket = mekle::scan::visit(&path("/root/app/Cargo.toml"), 2, Some(EntryKind::Other), &exclusions, &markers, &no_kind, &no_text, &no_dir);
    let other = mekle::scan::visit(&path("/root/app/README.md"), 2, Some(EntryKind::File), &exclusions, &markers, &no_kind, &no_text, &no_dir);

    assert_eq!(file.step, WalkStep::Continue);
    assert!(matches!(file.finding, Some(Finding::Marker(p)) if p.to_text() == "/root/app/Cargo.toml"));
    assert_eq!(dir.step, WalkStep::Skip);
    assert!(matches!(dir.finding, Some(Finding::Marker(_))));
    assert!(socket.finding.is_none());
    assert_eq!(other.step, WalkStep::Continue);
    assert!(other.finding.is_none());
}

#[test]
fn a_repository_is_recorded_by_its_directory_and_not_entered() {
    let exclusions = exclusions(&["/root"], &[]).expect("no patterns");
    let markers = vec!["Cargo.toml".to_owned()];

    let visit = mekle::scan::visit(&path("/root/repo/.git"), 2, Some(EntryKind::Directory), &exclusions, &markers, &git_dir_kind, &no_text, &no_dir);

    assert_eq!(visit.step, WalkStep::Skip);
    assert!(matches!(visit.finding, Some(Finding::Repository(p)) if p.to_text() == "/root/repo"));
}

#[test]
fn a_git_file_that_redirects_nowhere_is_passed_over() {
    let exclusions = exclusions(&["/root"], &[]).expect("no patterns");
    let markers = vec![".git".to_owned()];
    let file_kind = |_: &PathName| -> Result<Option<EntryKind>, String> { Ok(Some(EntryKind::File)) };
    let text = |_: &PathName| -> Result<Option<String>, String> { Ok(Some("gitdir: /nowhere\n".to_owned())) };

    let visit = mekle::scan::visit(&path("/root/wt/.git"), 2, Some(EntryKind::File), &exclusions, &markers, &file_kind, &text, &no_dir);

    assert_eq!(visit.step, WalkStep::Continue);
    assert!(visit.finding.is_none());
}

#[test]
fn a_worktree_is_a_project_without_a_marker() {
    let exclusions = exclusions(&["/root"], &[]).expect("no patterns");
    let markers = vec!["Cargo.toml".to_owned()];
    let file_kind = |_: &PathName| -> Result<Option<EntryKind>, String> { Ok(Some(EntryKind::File)) };
    let text = |_: &PathName| -> Result<Option<String>, String> { Ok(Some("gitdir: /root/repo/.git/worktrees/feature\n".to_owned())) };
    let admin_dir = |p: &PathName| -> Result<bool, String> { Ok(p.to_text() == "/root/repo/.git/worktrees/feature") };

    let visit = mekle::scan::visit(&path("/root/feature/.git"), 2, Some(EntryKind::File), &exclusions, &markers, &file_kind, &text, &admin_dir);

    assert_eq!(visit.step, WalkStep::Skip);
    assert!(matches!(visit.finding, Some(Finding::Repository(p)) if p.to_text() == "/root/feature"));
}

#[test]
fn findings_are_kept_in_the_order_they_come() {
    let mut scan = DirectoryScan::new();

    scan.record(Finding::Repository(path("/a")));
    scan.record(Finding::Marker(path("/b/Cargo.toml")));
    scan.record(Finding::Repository(path("/c")));

    assert_eq!(scan.git_repos.iter().map(PathName::to_text).collect::<Vec<_>>(), ["/a", "/c"]);
    assert_eq!(scan.marker_files.iter().map(PathName::to_text).collect::<Vec<_>>(), ["/b/Cargo.toml"]);
}

#[test]
fn special_files_are_not_markers() {
    let exclusions = exclusions(&["/t"], &[]).expect("no patterns");
    let markers = vec!["Cargo.toml".to_owned()];
    let mut scan = DirectoryScan::new();

    let visit = mekle::scan::visit(&path("/t/project/Cargo.toml"), 2, Some(EntryKind::Other), &exclusions, &markers, &no_kind, &no_text, &no_dir);
    if let Some(finding) = visit.finding {
        scan.record(finding);
    }

    assert!(scan.marker_files.is_empty());
    assert!(scan.git_repos.is_empty());
}
