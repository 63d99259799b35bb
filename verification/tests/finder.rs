use mekle::config::Config;
use mekle::content::ContentTest;
use mekle::error::Error;
use mekle::finder::{assemble_projects, file_name, is_covered, ProjectFinder, SearchError};
use mekle::path::PathName;
use mekle::scan::DirectoryScan;

fn path(text: &str) -> PathName {
    PathName::parse(text)
}

fn never_repo(_: &PathName) -> Result<bool, String> {
    Ok(false)
}

fn never_matches(_: &PathName, _: ContentTest) -> Result<bool, String> {
    Ok(false)
}

fn absent(_: &PathName) -> bool {
    false
}

#[test]
fn coverage_rules() {
    for (candidate, known, expected, reason) in [
        ("/repo", "/repo", true, "the same directory is already known"),
        ("/repo/pkg", "/repo", false, "a direct child is a distinct project"),
        ("/repo/pkg/inner", "/repo", true, "anything deeper belongs to the parent"),
        ("/other", "/repo", false, "unrelated trees never cover each other"),
    ] {
        assert_eq!(is_covered(&path(candidate), &[path(known)]), expected, "{reason}");
    }
}

#[test]
fn the_root_never_covers_a_relative_path() {
    assert!(!is_covered(&path("a/b/c"), &[path("/")]));
    assert!(is_covered(&path("/a/b"), &[path("/")]));
}

#[test]
fn a_direct_child_is_a_project_but_a_grandchild_is_not() {
    let repos = vec![path("/repo")];
    let candidates = vec![
        (path("/repo/pkg/inner"), "Cargo.toml".to_owned()),
        (path("/repo/pkg"), "package.json".to_owned()),
    ];

    let projects = assemble_projects(&repos, candidates);

    let listed = projects.iter().map(|p| (p.path.to_text(), p.markers.clone())).collect::<Vec<_>>();
    assert_eq!(
        listed,
        [
            ("/repo".to_owned(), vec![".git".to_owned(), "Cargo.toml".to_owned()]),
            ("/repo/pkg".to_owned(), vec!["package.json".to_owned()]),
        ]
    );
}

#[test]
fn nested_repositories_are_reported_separately() {
    let repos = vec![path("/outer/a/b/inner"), path("/outer")];

    let projects = assemble_projects(&repos, Vec::new());

    let listed = projects.iter().map(|p| p.path.to_text()).collect::<Vec<_>>();
    assert_eq!(listed, ["/outer", "/outer/a/b/inner"]);
}

#[test]
fn file_names_skip_the_root_and_dot_components() {
    assert_eq!(file_name(&path("/a/Cargo.toml")).as_deref(), Some("Cargo.toml"));
    assert!(file_name(&path("/")).is_none());
    assert!(file_name(&path("a/..")).is_none());
    assert!(file_name(&path(".")).is_none());
}

#[test]
fn a_search_path_that_is_not_a_directory_fails() {
    let mut config = Config::defaults();
    config.paths = vec![path("/exists"), path("/missing")];
    let finder = ProjectFinder::new(config);
    let is_dir = |p: &PathName| p.to_text() == "/exists";

    let outcome = finder.find_projects(&is_dir, &three_repositories, &never_repo, &never_matches, &absent);

    assert!(matches!(outcome, Err(SearchError::Search(Error::PathNotFound(p))) if p.to_text() == "/missing"));
}

#[test]
fn a_missing_search_path_is_reported_before_any_project() {
    let mut config = Config::defaults();
    config.paths = vec![path("/exists"), path("/missing")];
    let finder = ProjectFinder::new(config);
    let is_dir = |p: &PathName| p.to_text() == "/exists";

    let outcome = finder.check_search_dirs(&is_dir);

    assert!(matches!(outcome, Err(Error::PathNotFound(p)) if p.to_text() == "/missing"));
}

#[test]
fn the_first_missing_search_path_is_the_error() {
    let mut config = Config::defaults();
    config.paths = vec![path("/exists"), path("/first-missing"), path("/second-missing")];
    let finder = ProjectFinder::new(config);
    let is_dir = |p: &PathName| p.to_text() == "/exists";

    let outcome = finder.check_search_dirs(&is_dir);

    assert!(matches!(outcome, Err(Error::PathNotFound(p)) if p.to_text() == "/first-missing"));
}

#[test]
fn max_results_keeps_the_first_roots_in_order() {
    let mut config = Config::defaults();
    config.paths = vec![path("/t")];
    config.max_results = Some(2);
    let finder = ProjectFinder::new(config);
    let is_dir = |_: &PathName| true;

    let roots = finder.find_projects(&is_dir, &three_repositories, &never_repo, &never_matches, &absent).expect("nothing fails");

    let listed = roots.iter().map(PathName::to_text).collect::<Vec<_>>();
    assert_eq!(listed, ["/t/alpha", "/t/bravo"]);
}

#[test]
fn without_a_limit_every_root_is_kept() {
    let mut config = Config::defaults();
    config.paths = vec![path("/t")];
    let finder = ProjectFinder::new(config);
    let mut scan = DirectoryScan::new();
    for name in ["charlie", "alpha", "bravo"] {
        scan.git_repos.push(path("/t").join(&path(name)));
    }

    let roots = finder.project_roots_of(&scan, &never_repo, &never_matches, &absent).expect("no probe fails");

    let listed = roots.iter().map(PathName::to_text).collect::<Vec<_>>();
    assert_eq!(listed, ["/t/alpha", "/t/bravo", "/t/charlie"]);
}

#[test]
fn marker_files_resolve_to_their_own_directories_without_a_repository() {
    let mut config = Config::defaults();
    config.marker_files = vec!["go.mod".to_owned()];
    let finder = ProjectFinder::new(config);
    let mut scan = DirectoryScan::new();
    scan.marker_files.push(path("/src/service/go.mod"));
    scan.marker_files.push(path("/src/service/tool/go.mod"));
    scan.marker_files.push(path("/src/service/tool/plugin/go.mod"));
    scan.git_repos.push(path("/src/other"));

    let projects = finder
        .project_details_of(&scan, &never_repo, &never_matches, &absent)
        .expect("no probe fails");

    let listed = projects.iter().map(|p| p.path.to_text()).collect::<Vec<_>>();
    assert_eq!(listed, ["/src/other", "/src/service", "/src/service/tool"]);
    assert_eq!(projects[2].markers, ["go.mod"]);
}

fn three_repositories(config: &Config) -> Result<DirectoryScan, String> {
    let mut scan = DirectoryScan::new();
    for name in ["charlie", "alpha", "bravo"] {
        scan.git_repos.push(config.paths[0].join(&path(name)));
    }
    Ok(scan)
}

#[test]
fn a_search_stops_at_the_first_search_path_that_is_not_a_directory() {
    let mut config = Config::defaults();
    config.paths = vec![path("/t"), path("/gone"), path("/also-gone")];
    let finder = ProjectFinder::new(config);
    let is_dir = |p: &PathName| p.to_text() == "/t";

    let outcome = finder.find_projects(&is_dir, &three_repositories, &never_repo, &never_matches, &absent);

    assert!(matches!(outcome, Err(SearchError::Search(Error::PathNotFound(p))) if p.to_text() == "/gone"));
}

#[test]
fn a_search_lists_every_project_with_its_markers() {
    let mut config = Config::defaults();
    config.paths = vec![path("/t")];
    config.max_results = Some(2);
    let finder = ProjectFinder::new(config);
    let is_dir = |_: &PathName| true;

    let projects = finder
        .find_project_details(&is_dir, &three_repositories, &never_repo, &never_matches, &absent)
        .expect("nothing fails");

    let listed = projects.iter().map(|p| (p.path.to_text(), p.markers.clone())).collect::<Vec<_>>();
    assert_eq!(
        listed,
        [
            ("/t/alpha".to_owned(), vec![".git".to_owned()]),
            ("/t/bravo".to_owned(), vec![".git".to_owned()]),
            ("/t/charlie".to_owned(), vec![".git".to_owned()]),
        ]
    );
}

#[test]
fn a_failed_walk_fails_the_search() {
    let mut config = Config::defaults();
    config.paths = vec![path("/t")];
    let finder = ProjectFinder::new(config);
    let is_dir = |_: &PathName| true;
    let walk = |_: &Config| -> Result<DirectoryScan, String> { Err("walk failed".to_owned()) };

    let outcome = finder.find_projects(&is_dir, &walk, &never_repo, &never_matches, &absent);

    assert!(matches!(outcome, Err(SearchError::Probe(e)) if e == "walk failed"));
}

#[test]
fn projects_carry_only_git_or_the_names_of_their_marker_files() {
    let mut config = Config::defaults();
    config.marker_files = vec!["go.mod".to_owned(), "Cargo.toml".to_owned()];
    let finder = ProjectFinder::new(config);
    let mut scan = DirectoryScan::new();
    scan.git_repos.push(path("/src/app"));
    scan.marker_files.push(path("/src/app/go.mod"));
    scan.marker_files.push(path("/src/lib/Cargo.toml"));

    let projects = finder
        .project_details_of(&scan, &never_repo, &never_matches, &absent)
        .expect("no probe fails");

    let listed = projects.iter().map(|p| (p.path.to_text(), p.markers.clone())).collect::<Vec<_>>();
    assert_eq!(
        listed,
        [
            ("/src/app".to_owned(), vec![".git".to_owned(), "go.mod".to_owned()]),
            ("/src/lib".to_owned(), vec!["Cargo.toml".to_owned()]),
        ]
    );
}
