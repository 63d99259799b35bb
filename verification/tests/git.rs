use mekle::content::ContentTest;
use mekle::fs::EntryKind;
use mekle::git::{link_target, marks_repository, redirect_target, GIT_DIR};
use mekle::path::PathName;
use std::collections::BTreeMap;

/// A directory tree held in memory: each path maps to `None` for a
/// directory, or to a file's contents.
struct Tree {
    entries: BTreeMap<String, Option<String>>,
}

/// `text` with `.` and `..` components folded away.
fn normalize(text: &str) -> String {
    let mut parts: Vec<&str> = Vec::new();
    for part in text.split('/') {
        match part {
            "" | "." => {}
            ".." => {
                parts.pop();
            }
            other => parts.push(other),
        }
    }
    format!("/{}", parts.join("/"))
}

impl Tree {
    fn new() -> Self {
        let mut entries = BTreeMap::new();
        entries.insert("/".to_owned(), None);
        Tree { entries }
    }

    fn dir(&mut self, at: &str) {
        let at = normalize(at);
        let mut current = String::new();
        for part in at.split('/').filter(|part| !part.is_empty()) {
            current = format!("{current}/{part}");
            self.entries.entry(current.clone()).or_insert(None);
        }
    }

    fn file(&mut self, at: &str, contents: &str) {
        let at = normalize(at);
        if let Some((parent, _)) = at.rsplit_once('/') {
            self.dir(if parent.is_empty() { "/" } else { parent });
        }
        self.entries.insert(at, Some(contents.to_owned()));
    }

    fn kind(&self, p: &PathName) -> Result<Option<EntryKind>, String> {
        Ok(match self.entries.get(&normalize(&p.to_text())) {
            Some(None) => Some(EntryKind::Directory),
            Some(Some(_)) => Some(EntryKind::File),
            None => None,
        })
    }

    fn text(&self, p: &PathName) -> Result<Option<String>, String> {
        match self.entries.get(&normalize(&p.to_text())) {
            Some(Some(contents)) => Ok(Some(contents.clone())),
            Some(None) => Err(format!("{} is a directory", p.to_text())),
            None => Err(format!("{} is missing", p.to_text())),
        }
    }

    fn is_dir(&self, p: &PathName) -> Result<bool, String> {
        self.kind(p).map(|kind| kind == Some(EntryKind::Directory))
    }

    fn holds(&self, p: &PathName) -> bool {
        self.entries.contains_key(&normalize(&p.to_text()))
    }

    fn is_repo(&self, p: &PathName) -> Result<bool, String> {
        let kind = |q: &PathName| self.kind(q);
        let text = |q: &PathName| self.text(q);
        let dir = |q: &PathName| self.is_dir(q);
        marks_repository(&p.join(&PathName::parse(GIT_DIR)), &kind, &text, &dir)
    }

    fn file_matches(&self, p: &PathName, test: ContentTest) -> Result<bool, String> {
        match self.entries.get(&normalize(&p.to_text())) {
            Some(Some(contents)) => Ok(test.matches(contents)),
            Some(None) => Err(format!("{} is a directory", p.to_text())),
            None => Ok(false),
        }
    }
}

fn marks(tree: &Tree, at: &str) -> Result<bool, String> {
    let kind = |q: &PathName| tree.kind(q);
    let text = |q: &PathName| tree.text(q);
    let dir = |q: &PathName| tree.is_dir(q);
    marks_repository(&PathName::parse(at), &kind, &text, &dir)
}

/// A tree holding a directory target, a file target, and a `worktree/.git`
/// file with `contents`.
fn git_file(contents: &str) -> Tree {
    let mut tree = Tree::new();
    tree.dir("/t/admin");
    tree.file("/t/plain", "not a directory");
    tree.file("/t/worktree/.git", &contents.replace("<ROOT>", "/t"));
    tree
}

#[test]
fn a_git_directory_marks_a_repository() {
    let mut tree = Tree::new();
    tree.dir("/t/.git");

    assert_eq!(marks(&tree, "/t/.git"), Ok(true));
}

#[test]
fn a_missing_git_entry_marks_nothing() {
    let tree = Tree::new();

    assert_eq!(marks(&tree, "/t/.git"), Ok(false));
}

#[test]
fn a_git_file_marks_a_repository_only_when_it_redirects() {
    for (contents, expected) in [
        ("gitdir: <ROOT>/admin\n", true),
        ("gitdir: ../admin\n", true),
        ("gitdir: <ROOT>/admin\r\n", true),
        ("gitdir: <ROOT>/admin", true),
        ("ref: refs/heads/main\n", false),
        ("gitdir:\n", false),
        ("gitdir:    \n", false),
        ("gitdir: <ROOT>/admin\nworktree: <ROOT>\n", false),
        ("gitdir: <ROOT>/nowhere\n", false),
        ("gitdir: <ROOT>/plain\n", false),
    ] {
        let tree = git_file(contents);

        assert_eq!(marks(&tree, "/t/worktree/.git"), Ok(expected), "{contents:?}");
    }
}

#[test]
fn contents_that_are_not_text_do_not_redirect() {
    let tree = Tree::new();
    let kind = |_: &PathName| -> Result<Option<EntryKind>, String> { Ok(Some(EntryKind::File)) };
    let text = |_: &PathName| -> Result<Option<String>, String> { Ok(None) };
    let dir = |q: &PathName| tree.is_dir(q);

    assert_eq!(marks_repository(&PathName::parse("/t/.git"), &kind, &text, &dir), Ok(false));
}

#[test]
fn a_trailing_blank_line_is_not_an_extra_entry() {
    assert_eq!(
        link_target("gitdir: /repo/.git/worktrees/one\n\n").as_deref(),
        Some("/repo/.git/worktrees/one")
    );
}

#[test]
fn link_targets_are_trimmed_and_must_stand_alone() {
    assert_eq!(link_target("gitdir:   relative/dir  \n").as_deref(), Some("relative/dir"));
    assert_eq!(link_target("  gitdir: /x\n"), None);
    assert_eq!(link_target(""), None);
    assert_eq!(link_target("gitdir: /x\n \t\nsomething\n"), None);
}

#[test]
fn relative_targets_resolve_against_the_directory_holding_the_file() {
    let file = PathName::parse("/repo/worktree/.git");

    let relative = redirect_target(&file, "gitdir: ../admin\n");
    let absolute = redirect_target(&file, "gitdir: /elsewhere/admin\n");

    assert_eq!(relative.map(|p| p.to_text()).as_deref(), Some("/repo/worktree/../admin"));
    assert_eq!(absolute.map(|p| p.to_text()).as_deref(), Some("/elsewhere/admin"));
    assert!(redirect_target(&file, "ref: main\n").is_none());
}

#[test]
fn the_tree_helper_knows_what_it_holds() {
    let tree = git_file("gitdir: <ROOT>/admin\n");

    assert_eq!(tree.file_matches(&PathName::parse("/t/plain"), ContentTest::NonEmpty), Ok(true));
    assert!(tree.holds(&PathName::parse("/t/worktree")));
    assert_eq!(tree.is_repo(&PathName::parse("/t/worktree")), Ok(true));
}
