use mekle::error::Error;
use mekle::history::{
    History, ProjectUsage, ScoreChange, AGED_TOTAL_SCORE, MAX_TOTAL_SCORE, MINIMUM_SCORE, SCORE_UNIT,
};
use mekle::path::PathName;
use tempfile::TempDir;

const NOW: u64 = 2_000_000;
const MINUTE: u64 = 60;
const HOUR: u64 = 60 * MINUTE;
const DAY: u64 = 24 * HOUR;

fn path(text: &str) -> PathName {
    PathName::parse(text)
}

fn points(score: f64) -> u64 {
    (score * SCORE_UNIT as f64).round() as u64
}

fn usage(at: &str, score: f64, age: u64) -> ProjectUsage {
    ProjectUsage::new(&path(at), points(score), NOW.saturating_sub(age))
}

fn pinned(at: &str, score: f64, age: u64) -> ProjectUsage {
    ProjectUsage {
        pinned: true,
        ..usage(at, score, age)
    }
}

fn history_of(projects: Vec<ProjectUsage>) -> History {
    History {
        path: PathName::parse(""),
        projects,
    }
}

fn empty_history() -> History {
    History::new(path("/data/mekle/history.toml"))
}

/// The paths `history` reports, in the order it reports them.
fn ranking(history: &History) -> Vec<String> {
    history
        .entries_at(NOW)
        .into_iter()
        .map(|entry| entry.path.to_text())
        .collect()
}

#[test]
fn repeated_visits_increase_the_score() {
    let mut history = empty_history();

    history.record_at(&path("/project"), NOW);
    history.record_at(&path("/project"), NOW);

    assert_eq!(history.projects[0].score, 2 * SCORE_UNIT);
}

#[test]
fn a_first_visit_records_one_point() {
    let mut history = empty_history();
    let project = path("/projects/favorite");

    history.record_at(&project, NOW);

    assert_eq!(history.projects.len(), 1);
    assert!(history.projects[0].path.same_as(&project));
    assert_eq!(history.projects[0].score, SCORE_UNIT);
    assert_eq!(history.projects[0].last_accessed, NOW);
}

#[test]
fn recency_outweighs_a_higher_raw_score() {
    let history = history_of(vec![
        usage("/recent", 2.0, 30 * MINUTE),
        usage("/yesterday", 3.0, 2 * HOUR),
        usage("/week", 10.0, 2 * DAY),
        usage("/old", 16.0, 8 * DAY),
    ]);

    assert_eq!(ranking(&history), ["/recent", "/yesterday", "/week", "/old"]);
}

#[test]
fn equally_ranked_projects_are_ordered_by_path() {
    let history = history_of(vec![usage("/beta", 1.0, 0), usage("/alpha", 1.0, 0)]);

    assert_eq!(ranking(&history), ["/alpha", "/beta"]);
}

#[test]
fn aging_removes_projects_with_negligible_scores() {
    let mut history = history_of(vec![
        usage("/frequent", 10_000.0, 0),
        usage("/rare", 1.0, 0),
    ]);

    history.age();

    assert_eq!(history.projects.len(), 1);
    assert_eq!(history.projects[0].path.to_text(), "/frequent");
    assert!(history.projects[0].score <= AGED_TOTAL_SCORE);
}

#[test]
fn adjusting_below_the_floor_retires_a_project() {
    let mut history = empty_history();
    history.projects.push(usage("/project", 2.0, 0));

    let outcome = history.update(&path("/project"), ScoreChange::Adjust(-1_500_000), NOW);

    assert!(outcome.is_ok());
    assert!(history.projects.is_empty());
}

#[test]
fn pinned_projects_rank_above_more_frecent_ones() {
    let history = history_of(vec![
        usage("/recent", 100.0, 0),
        pinned("/favourite", 1.0, 8 * DAY),
    ]);

    assert_eq!(ranking(&history), ["/favourite", "/recent"]);
}

#[test]
fn aging_keeps_pinned_projects() {
    let mut history = history_of(vec![
        usage("/frequent", 10_000.0, 0),
        pinned("/favourite", 1.0, 0),
    ]);

    history.age();

    assert_eq!(history.projects.len(), 2);
    assert!(history.projects[1].score < MINIMUM_SCORE);
}

#[test]
fn pinning_an_unvisited_project_records_it() {
    let mut history = empty_history();

    assert!(history.pin(&path("/project"), NOW).is_ok());

    assert_eq!(history.projects.len(), 1);
    assert!(history.projects[0].pinned);
    assert_eq!(history.projects[0].score, MINIMUM_SCORE);
}

#[test]
fn pinning_survives_a_round_trip_and_unpinning() {
    let mut history = empty_history();
    let project = path("/projects/favourite");
    history.record_at(&project, NOW);
    assert!(history.pin(&project, NOW + 10).is_ok());

    assert!(history.projects[0].pinned);
    assert_eq!(history.projects[0].score, SCORE_UNIT);

    assert!(history.unpin(&project).is_ok());

    assert!(!history.projects[0].pinned);
    assert_eq!(history.projects[0].score, SCORE_UNIT);
    assert_eq!(history.projects[0].last_accessed, NOW);
}

#[test]
fn unpinning_an_unknown_project_fails() {
    let mut history = empty_history();

    let outcome = history.unpin(&path("/project"));

    assert!(matches!(outcome, Err(Error::HistoryEntryNotFound(p)) if p.to_text() == "/project"));
    assert!(history.projects.is_empty());
}

#[test]
fn pruning_keeps_only_projects_that_still_exist() {
    let temp = TempDir::new().expect("create temp dir");
    let present = path(temp.path().to_str().expect("utf-8 temp path"));
    let mut history = empty_history();
    history.projects.push(ProjectUsage::new(&present, SCORE_UNIT, NOW));
    history.projects.push(usage("/definitely/not/here", 1.0, 0));
    let exists = history
        .projects
        .iter()
        .map(|project| std::path::Path::new(&project.path.to_text()).exists())
        .collect::<Vec<_>>();

    history.prune(&exists);

    assert_eq!(history.projects.len(), 1);
    assert!(history.projects[0].path.same_as(&present));
}

#[test]
fn frecency_weights_follow_the_documented_table() {
    let fresh = usage("/a", 3.0, 59 * MINUTE);
    let today = usage("/a", 3.0, HOUR);
    let week = usage("/a", 3.0, DAY);
    let old = usage("/a", 3.0, 7 * DAY);
    let quarter = |score: f64| (score * 4.0 * SCORE_UNIT as f64) as u128;

    assert_eq!(fresh.frecency(NOW), quarter(12.0));
    assert_eq!(today.frecency(NOW), quarter(6.0));
    assert_eq!(week.frecency(NOW), quarter(1.5));
    assert_eq!(old.frecency(NOW), quarter(0.75));
    assert_eq!(usage("/a", 1.0, 0).frecency(NOW - 5), quarter(4.0));
}

#[test]
fn entries_report_the_standing_at_the_given_moment() {
    let history = history_of(vec![usage("/project", 2.0, 2 * HOUR)]);

    let entries = history.entries_at(NOW);

    assert_eq!(entries.len(), 1);
    assert_eq!(entries[0].score, points(2.0));
    assert_eq!(entries[0].last_used, 2 * HOUR);
    assert_eq!(entries[0].last_used_at, NOW - 2 * HOUR);
    assert_eq!(entries[0].frecency, (4.0 * 4.0 * SCORE_UNIT as f64) as u128);
    assert!(!entries[0].pinned);
}

#[test]
fn setting_a_score_creates_a_missing_entry() {
    let mut history = empty_history();

    assert!(history.update(&path("/beta"), ScoreChange::SetTo(points(10.0)), NOW).is_ok());
    assert!(history.update(&path("/beta"), ScoreChange::Adjust(-3_000_000), NOW).is_ok());

    assert_eq!(history.projects.len(), 1);
    assert_eq!(history.projects[0].score, points(7.0));
    assert_eq!(history.projects[0].last_accessed, NOW);
}

#[test]
fn a_score_below_one_point_is_refused() {
    let mut history = empty_history();

    let outcome = history.update(&path("/beta"), ScoreChange::SetTo(points(0.5)), NOW);

    assert!(matches!(outcome, Err(Error::InvalidScore(v)) if v == 500_000));
    assert!(history.projects.is_empty());
}

#[test]
fn changing_an_unknown_entry_is_refused() {
    let mut history = history_of(vec![usage("/alpha", 1.0, 0)]);

    let adjusted = history.update(&path("/beta"), ScoreChange::Adjust(1), NOW);
    let removed = history.update(&path("/beta"), ScoreChange::Remove, NOW);

    assert!(matches!(adjusted, Err(Error::HistoryEntryNotFound(_))));
    assert!(matches!(removed, Err(Error::HistoryEntryNotFound(_))));
    assert_eq!(history.projects.len(), 1);
}

#[test]
fn an_unrepresentable_score_is_refused() {
    let mut history = history_of(vec![ProjectUsage::new(&path("/alpha"), u64::MAX - 1, NOW)]);

    let outcome = history.update(&path("/alpha"), ScoreChange::Adjust(2), NOW);

    assert!(matches!(outcome, Err(Error::InvalidScore(v)) if v == u64::MAX as i128 + 1));
    assert_eq!(history.projects[0].score, u64::MAX - 1);
}

#[test]
fn removing_an_entry_drops_it() {
    let mut history = history_of(vec![usage("/alpha", 1.0, 0), usage("/beta", 1.0, 0)]);

    assert!(history.update(&path("/alpha"), ScoreChange::Remove, NOW).is_ok());

    assert_eq!(ranking(&history), ["/beta"]);
}

#[test]
fn clearing_removes_every_entry() {
    let mut history = history_of(vec![usage("/alpha", 1.0, 0), usage("/beta", 1.0, 0)]);

    history.clear();

    assert!(history.projects.is_empty());
}

#[test]
fn aging_brings_the_total_under_the_cap() {
    let mut history = history_of(vec![
        usage("/a", 6_000.0, 0),
        usage("/b", 5_000.0, 0),
        usage("/c", 3.0, 0),
    ]);

    history.age();

    let total: u64 = history.projects.iter().map(|project| project.score).sum();
    assert!(total <= AGED_TOTAL_SCORE);
    assert!(total <= MAX_TOTAL_SCORE);
    assert_eq!(history.projects.len(), 3);
}

#[test]
fn aging_leaves_a_history_within_the_cap_alone() {
    let mut history = history_of(vec![usage("/a", 9_999.0, 0), usage("/b", 1.0, 0)]);

    history.age();

    assert_eq!(history.projects[0].score, points(9_999.0));
    assert_eq!(history.projects[1].score, points(1.0));
}

#[test]
fn a_stored_history_of_another_version_is_refused() {
    let stored = History::from_stored(path("/h.toml"), 2, Vec::new());
    let current = History::from_stored(path("/h.toml"), 1, vec![usage("/a", 1.0, 0)]);

    assert!(matches!(stored, Err(Error::UnsupportedHistoryVersion { version: 2, .. })));
    assert_eq!(current.map(|h| h.projects.len()).ok(), Some(1));
}
