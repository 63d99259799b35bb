use mekle::config::Config;
use mekle::content::ContentTest;
use mekle::fs::EntryKind;
use mekle::git::{marks_repository, GIT_DIR};
use mekle::path::PathName;
use mekle::root::{RootCheck, RootResolver};
use std::collections::BTreeMap;

/// A directory tree held in memory: each path maps to `None` for a
/// directory, or to a file's contents.
struct Tree {
    entries: BTreeMap<String, Option<String>>,
}

/// `text` with `.` and `..` components folded away.
fn normalize(text: &str) -> String {
    let mut parts: Vec<&str> = Vec::new();
    for part in text.split('/') {
        match part {
            "" | "." => {}
            ".." => {
                parts.pop();
            }
            other => parts.push(other),
        }
    }
    format!("/{}", parts.join("/"))
}

impl Tree {
    fn new() -> Self {
        let mut entries = BTreeMap::new();
        entries.insert("/".to_owned(), None);
        Tree { entries }
    }

    fn dir(&mut self, at: &str) {
        let at = normalize(at);
        let mut current = String::new();
        for part in at.split('/').filter(|part| !part.is_empty()) {
            current = format!("{current}/{part}");
            self.entries.entry(current.clone()).or_insert(None);
        }
    }

    fn file(&mut self, at: &str, contents: &str) {
        let at = normalize(at);
        if let Some((parent, _)) = at.rsplit_once('/') {
            self.dir(if parent.is_empty() { "/" } else { parent });
        }
        self.entries.insert(at, Some(contents.to_owned()));
    }

    fn kind(&self, p: &PathName) -> Result<Option<EntryKind>, String> {
        Ok(match self.entries.get(&normalize(&p.to_text())) {
            Some(None) => Some(EntryKind::Directory),
            Some(Some(_)) => Some(EntryKind::File),
            None => None,
        })
    }

    fn text(&self, p: &PathName) -> Result<Option<String>, String> {
        match self.entries.get(&normalize(&p.to_text())) {
            Some(Some(contents)) => Ok(Some(contents.clone())),
            Some(None) => Err(format!("{} is a directory", p.to_text())),
            None => Err(format!("{} is missing", p.to_text())),
        }
    }

    fn is_dir(&self, p: &PathName) -> Result<bool, String> {
        self.kind(p).map(|kind| kind == Some(EntryKind::Directory))
    }

    fn holds(&self, p: &PathName) -> bool {
        self.entries.contains_key(&normalize(&p.to_text()))
    }

    fn is_repo(&self, p: &PathName) -> Result<bool, String> {
        let kind = |q: &PathName| self.kind(q);
        let text = |q: &PathName| self.text(q);
        let dir = |q: &PathName| self.is_dir(q);
        marks_repository(&p.join(&PathName::parse(GIT_DIR)), &kind, &text, &dir)
    }

    fn file_matches(&self, p: &PathName, test: ContentTest) -> Result<bool, String> {
        match self.entries.get(&normalize(&p.to_text())) {
            Some(Some(contents)) => Ok(test.matches(contents)),
            Some(None) => Err(format!("{} is a directory", p.to_text())),
            None => Ok(false),
        }
    }
}

fn path(text: &str) -> PathName {
    PathName::parse(text)
}

fn texts(paths: &[PathName]) -> Vec<String> {
    paths.iter().map(PathName::to_text).collect()
}

/// Resolves `dir` with `resolver` against `tree`, as text.
fn resolve_dir(resolver: &RootResolver, tree: &Tree, dir: &str) -> Result<String, String> {
    let is_repo = |p: &PathName| tree.is_repo(p);
    let file_matches = |p: &PathName, t: ContentTest| tree.file_matches(p, t);
    let present = |p: &PathName| tree.holds(p);
    let try_exists = |p: &PathName| -> Result<bool, String> { Ok(tree.holds(p)) };
    resolver
        .resolve_directory(&path(dir), &is_repo, &file_matches, &present, &try_exists)
        .map(|r| r.to_text())
}

fn resolve_marker(resolver: &RootResolver, tree: &Tree, dir: &str, marker: &str) -> Result<String, String> {
    let is_repo = |p: &PathName| tree.is_repo(p);
    let file_matches = |p: &PathName, t: ContentTest| tree.file_matches(p, t);
    let present = |p: &PathName| tree.holds(p);
    resolver.resolve(&path(dir), marker, &is_repo, &file_matches, &present).map(|r| r.to_text())
}

fn ascend(resolver: &RootResolver, tree: &Tree, dir: &str, check: RootCheck) -> Result<String, String> {
    let is_repo = |p: &PathName| tree.is_repo(p);
    let file_matches = |p: &PathName, t: ContentTest| tree.file_matches(p, t);
    let present = |p: &PathName| tree.holds(p);
    resolver.ascend_to_root(&path(dir), check, &is_repo, &file_matches, &present).map(|r| r.to_text())
}

fn ascend_build(tree: &Tree, dir: &str, build_file: &str) -> Result<String, String> {
    let is_repo = |p: &PathName| tree.is_repo(p);
    let present = |p: &PathName| tree.holds(p);
    RootResolver::new(Vec::new())
        .ascend_to_highest_build_file(&path(dir), build_file, &is_repo, &present)
        .map(|r| r.to_text())
}

/// A repository at `/t` with the nested directory `/t/a/b`.
fn repo_with_nested_dirs() -> Tree {
    let mut tree = Tree::new();
    tree.dir("/t/.git");
    tree.dir("/t/a/b");
    tree
}

#[test]
fn ancestors_skip_the_directory_itself() {
    let ancestors = path("/one/two/three").ancestors_above();

    assert_eq!(texts(&ancestors), ["/one/two", "/one", "/"]);
}

#[test]
fn relative_ancestors_stop_before_the_empty_path() {
    assert!(path("relative").ancestors_above().is_empty());
}

#[test]
fn every_ancestor_includes_the_path_itself() {
    assert_eq!(texts(&path("/one/two").ancestors()), ["/one/two", "/one", "/"]);
    assert_eq!(texts(&path("a/b").ancestors()), ["a/b", "a", ""]);
}

#[test]
fn ascent_stops_at_the_enclosing_repository() {
    let tree = repo_with_nested_dirs();
    let resolver = RootResolver::new(Vec::new());

    assert_eq!(ascend(&resolver, &tree, "/t/a/b", RootCheck::RepositoryOnly), Ok("/t".to_owned()));
}

#[test]
fn a_nearer_workspace_root_wins() {
    let mut tree = repo_with_nested_dirs();
    tree.file("/t/a/pnpm-workspace.yaml", "");
    let resolver = RootResolver::new(vec!["pnpm-workspace.yaml".to_owned()]);

    assert_eq!(ascend(&resolver, &tree, "/t/a/b", RootCheck::Workspace), Ok("/t/a".to_owned()));
}

#[test]
fn directory_resolution_uses_discovery_coverage_rules() {
    let mut tree = Tree::new();
    for project in ["/t/service", "/t/service/tool", "/t/service/tool/plugin"] {
        tree.file(&format!("{project}/go.mod"), "module example\n");
    }
    tree.dir("/t/service/tool/plugin/src");
    let mut config = Config::defaults();
    config.marker_files = vec!["go.mod".to_owned()];
    let resolver = RootResolver::from_config(&config);

    assert_eq!(
        resolve_dir(&resolver, &tree, "/t/service/tool/plugin/src"),
        Ok("/t/service/tool".to_owned())
    );
}

#[test]
fn a_worktree_outranks_the_repository_and_workspace_around_it() {
    let mut tree = Tree::new();
    tree.dir("/t/.git/worktrees/feature");
    tree.file("/t/Cargo.toml", "[workspace]\nmembers = [\"feature/crates/*\"]\n");
    tree.file("/t/feature/.git", "gitdir: /t/.git/worktrees/feature\n");
    tree.file("/t/feature/crates/one/Cargo.toml", "[package]\nname = \"one\"\n");
    let resolver = RootResolver::new(Vec::new());

    assert_eq!(
        resolve_marker(&resolver, &tree, "/t/feature/crates/one", "Cargo.toml"),
        Ok("/t/feature".to_owned())
    );
}

#[test]
fn ascent_falls_back_to_the_starting_directory() {
    let tree = Tree::new();
    let resolver = RootResolver::new(Vec::new());

    assert_eq!(ascend(&resolver, &tree, "no-ancestors", RootCheck::RepositoryOnly), Ok("no-ancestors".to_owned()));
}

#[test]
fn build_file_ascent_stops_at_the_repository() {
    let mut tree = repo_with_nested_dirs();
    tree.file("/t/a/b/Makefile", "");
    tree.file("/t/a/Makefile", "");

    assert_eq!(ascend_build(&tree, "/t/a/b", "Makefile"), Ok("/t".to_owned()));
}

#[test]
fn build_file_ascent_without_a_repository_keeps_the_start() {
    let tree = Tree::new();

    assert_eq!(ascend_build(&tree, "no-ancestors", "Makefile"), Ok("no-ancestors".to_owned()));
}

#[test]
fn build_files_resolve_to_the_outermost_one_without_a_repository() {
    let mut tree = Tree::new();
    tree.file("/t/a/b/Makefile", "");
    tree.file("/t/Makefile", "");
    let resolver = RootResolver::new(Vec::new());

    assert_eq!(resolve_marker(&resolver, &tree, "/t/a/b", "Makefile"), Ok("/t".to_owned()));
}

#[test]
fn a_package_json_workspace_absorbs_its_member() {
    let mut tree = Tree::new();
    tree.file("/t/package.json", r#"{"workspaces": ["packages/*"]}"#);
    tree.file("/t/packages/one/package.json", r#"{"name": "one"}"#);
    let resolver = RootResolver::new(Vec::new());

    assert_eq!(resolve_marker(&resolver, &tree, "/t/packages/one", "package.json"), Ok("/t".to_owned()));
}

#[test]
fn a_cargo_workspace_needs_the_workspace_table() {
    let mut tree = Tree::new();
    tree.file("/t/Cargo.toml", "[workspace.dependencies]\nx = 1\n");
    tree.file("/t/crates/one/Cargo.toml", "[package]\n");
    let resolver = RootResolver::new(Vec::new());

    assert_eq!(
        resolve_marker(&resolver, &tree, "/t/crates/one", "Cargo.toml"),
        Ok("/t/crates/one".to_owned())
    );
}

#[test]
fn other_markers_resolve_to_the_enclosing_repository() {
    let mut tree = repo_with_nested_dirs();
    tree.file("/t/a/b/go.mod", "module x\n");
    let resolver = RootResolver::new(Vec::new());

    assert_eq!(resolve_marker(&resolver, &tree, "/t/a/b", "go.mod"), Ok("/t".to_owned()));
}

#[test]
fn a_directory_outside_any_project_resolves_to_itself() {
    let mut tree = Tree::new();
    tree.dir("/t/plain/dir");
    let resolver = RootResolver::new(Vec::new());

    assert_eq!(resolve_dir(&resolver, &tree, "/t/plain/dir"), Ok("/t/plain/dir".to_owned()));
}

#[test]
fn a_probe_failure_is_reported() {
    let resolver = RootResolver::new(Vec::new());
    let failing = |_: &PathName| -> Result<bool, String> { Err("unreadable".to_owned()) };
    let file_matches = |_: &PathName, _: ContentTest| -> Result<bool, String> { Ok(false) };
    let present = |_: &PathName| false;

    let root = resolver.ascend_to_root(&path("/a/b"), RootCheck::RepositoryOnly, &failing, &file_matches, &present);

    assert_eq!(root.map(|r| r.to_text()), Err("unreadable".to_owned()));
}
