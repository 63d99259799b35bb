use mekle::config::OutputFormat;
use mekle::finder::Project;
use mekle::history::HistoryEntry;
use mekle::output::{include_pinned, rank_projects, shown_path};
use mekle::path::PathName;

fn path(text: &str) -> PathName {
    PathName::parse(text)
}

fn project(at: &str, markers: &[&str]) -> Project {
    Project {
        path: path(at),
        markers: markers.iter().map(|m| (*m).to_owned()).collect(),
    }
}

fn entry(at: &str, score: u64, frecency: u128, pinned: bool) -> HistoryEntry {
    HistoryEntry {
        path: path(at),
        score,
        frecency,
        last_used: 10,
        last_used_at: 1_000,
        pinned,
    }
}

#[test]
fn recorded_projects_are_ranked_before_untracked_projects() {
    let projects = vec![
        project("/d", &["Cargo.toml"]),
        project("/a", &[".git"]),
        project("/b", &["go.mod"]),
        project("/c", &[]),
    ];
    let history = [entry("/b", 5, 80, false), entry("/c", 1, 4, true)];

    let ranked = rank_projects(projects, &history);

    let order = ranked.iter().map(|r| r.path.to_text()).collect::<Vec<_>>();
    assert_eq!(order, ["/c", "/b", "/a", "/d"]);
    assert!(ranked[0].pinned);
    assert_eq!(ranked[1].score, 5);
    assert_eq!(ranked[1].frecency, 80);
    assert_eq!(ranked[1].last_used, Some(1_000));
    assert_eq!(ranked[1].markers, ["go.mod"]);
    assert_eq!(ranked[2].score, 0);
    assert_eq!(ranked[2].frecency, 0);
    assert_eq!(ranked[2].last_used, None);
    assert!(!ranked[2].pinned);
}

#[test]
fn pinned_projects_rank_against_each_other_by_frecency() {
    let projects = vec![project("/low", &[]), project("/high", &[]), project("/free", &[])];
    let history = [entry("/low", 1, 1, true), entry("/high", 1, 9, true), entry("/free", 1, 100, false)];

    let ranked = rank_projects(projects, &history);

    let order = ranked.iter().map(|r| r.path.to_text()).collect::<Vec<_>>();
    assert_eq!(order, ["/high", "/low", "/free"]);
}

#[test]
fn a_later_history_entry_for_a_path_counts() {
    let projects = vec![project("/a", &[])];
    let history = [entry("/a", 1, 4, false), entry("/a", 7, 28, true)];

    let ranked = rank_projects(projects, &history);

    assert_eq!(ranked[0].score, 7);
    assert!(ranked[0].pinned);
}

#[test]
fn pins_are_listed_unless_their_directory_is_gone() {
    let mut projects = vec![project("/a", &["Cargo.toml"])];
    let history = [
        entry("/a", 1, 4, true),
        entry("/notes", 1, 4, true),
        entry("/gone", 1, 4, true),
        entry("/unpinned", 1, 4, false),
        entry("/notes", 2, 8, true),
    ];
    let is_dir = |p: &PathName| -> Result<bool, String> { Ok(p.to_text() != "/gone") };

    assert_eq!(include_pinned(&mut projects, &history, &is_dir), Ok(()));

    let listed = projects.iter().map(|p| p.path.to_text()).collect::<Vec<_>>();
    assert_eq!(listed, ["/a", "/notes"]);
    assert_eq!(projects[0].markers, ["Cargo.toml"]);
    assert!(projects[1].markers.is_empty());
}

#[test]
fn a_failed_directory_check_is_reported() {
    let mut projects = Vec::new();
    let history = [entry("/notes", 1, 4, true)];
    let is_dir = |_: &PathName| -> Result<bool, String> { Err("denied".to_owned()) };

    assert_eq!(include_pinned(&mut projects, &history, &is_dir), Err("denied".to_owned()));
}

#[test]
fn only_plain_output_shortens_paths_under_home() {
    let home = path("/home/user");
    let p = path("/home/user/src/mekle");

    assert_eq!(shown_path(&p, OutputFormat::Path, Some(&home)).to_text(), "~/src/mekle");
    assert_eq!(shown_path(&p, OutputFormat::Json, Some(&home)).to_text(), "/home/user/src/mekle");
    assert_eq!(shown_path(&p, OutputFormat::Null, Some(&home)).to_text(), "/home/user/src/mekle");
    assert_eq!(shown_path(&p, OutputFormat::Path, None).to_text(), "/home/user/src/mekle");
}

#[test]
fn pins_are_added_in_history_order() {
    let mut projects = Vec::new();
    let history = [entry("/zeta", 1, 4, true), entry("/alpha", 1, 4, true)];
    let is_dir = |_: &PathName| -> Result<bool, String> { Ok(true) };

    assert_eq!(include_pinned(&mut projects, &history, &is_dir), Ok(()));

    let listed = projects.iter().map(|p| p.path.to_text()).collect::<Vec<_>>();
    assert_eq!(listed, ["/zeta", "/alpha"]);
}
