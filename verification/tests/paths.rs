use mekle::path::PathName;
use mekle::paths::{app_file, config_file_in, contract_tilde, expand_tilde, history_file_in, home_from};

fn path(text: &str) -> PathName {
    PathName::parse(text)
}

fn text(p: &PathName) -> String {
    p.to_text()
}

fn some(s: &str) -> Option<String> {
    Some(s.to_owned())
}

fn config_file_from(xdg: Option<String>, home: Option<String>) -> Option<String> {
    config_file_in(xdg, home).map(|p| text(&p))
}

fn history_file_from(xdg: Option<String>, home: Option<String>) -> Option<String> {
    history_file_in(xdg, home).map(|p| text(&p))
}

#[test]
fn paths_xdg_config_home_takes_precedence() {
    let found = config_file_from(some("/xdg"), some("/home/user"));

    assert_eq!(found.as_deref(), Some("/xdg/mekle/config.toml"));
}

#[test]
fn config_xdg_config_home_takes_precedence() {
    let found = config_file_from(some("/xdg"), some("/home/user"));

    assert_eq!(found.as_deref(), Some("/xdg/mekle/config.toml"));
}

#[test]
fn paths_home_is_the_fallback_config_location() {
    let found = config_file_from(None, some("/home/user"));

    assert_eq!(found.as_deref(), Some("/home/user/.config/mekle/config.toml"));
}

#[test]
fn config_home_is_the_fallback_config_location() {
    let found = config_file_from(None, some("/home/user"));

    assert_eq!(found.as_deref(), Some("/home/user/.config/mekle/config.toml"));
}

#[test]
fn xdg_data_home_takes_precedence() {
    let found = history_file_from(some("/xdg"), some("/home/user"));

    assert_eq!(found.as_deref(), Some("/xdg/mekle/history.toml"));
}

#[test]
fn home_is_the_fallback_history_location() {
    let found = history_file_from(None, some("/home/user"));

    assert_eq!(found.as_deref(), Some("/home/user/.local/share/mekle/history.toml"));
}

#[test]
fn an_empty_variable_is_no_variable() {
    assert!(config_file_from(some(""), None).is_none());
    assert!(config_file_from(None, some("")).is_none());
}

#[test]
fn paths_no_config_location_is_valid() {
    assert!(config_file_from(None, None).is_none());
}

#[test]
fn config_no_config_location_is_valid() {
    assert!(config_file_from(None, None).is_none());
}

#[test]
fn an_empty_xdg_variable_falls_back_to_home() {
    let found = app_file(some(""), some("/home/user"), ".config", "config.toml");

    assert_eq!(found.map(|p| text(&p)).as_deref(), Some("/home/user/.config/mekle/config.toml"));
}

#[test]
fn tilde_expansion() {
    let home = path("/home/user");
    for (input, expected, reason) in [
        ("~/repos", "/home/user/repos", "a leading tilde becomes the home directory"),
        ("~", "/home/user", "a bare tilde is the home directory itself"),
        ("/tmp/~/x", "/tmp/~/x", "a tilde below the root is an ordinary name"),
        ("~user/repos", "~user/repos", "the ~user form is left to the shell"),
        ("./repos", "./repos", "paths without a tilde are untouched"),
    ] {
        let expanded = expand_tilde(&path(input), Some(&home));

        assert!(expanded.same_as(&path(expected)), "{reason}: got {}", text(&expanded));
    }
}

#[test]
fn tilde_contraction() {
    let home = path("/home/user");
    for (input, expected, reason) in [
        ("/home/user/repos", "~/repos", "a path under home is shortened"),
        ("/home/user", "~", "home itself is a bare tilde"),
        ("/mnt/data/repos", "/mnt/data/repos", "paths elsewhere are untouched"),
        ("/home/username/repos", "/home/username/repos", "a longer sibling name is not a prefix match"),
    ] {
        let contracted = contract_tilde(&path(input), Some(&home));

        assert_eq!(text(&contracted), expected, "{reason}");
    }
}

#[test]
fn contraction_undoes_expansion() {
    let home = path("/home/user");
    for input in ["~/repos", "~", "/mnt/data"] {
        let expanded = expand_tilde(&path(input), Some(&home));

        assert_eq!(text(&contract_tilde(&expanded, Some(&home))), input);
    }
}

#[test]
fn paths_tildes_survive_a_missing_home() {
    assert_eq!(text(&expand_tilde(&path("~/repos"), None)), "~/repos");
}

#[test]
fn config_tildes_survive_a_missing_home() {
    assert_eq!(text(&expand_tilde(&path("~/repos"), None)), "~/repos");
}

#[test]
fn contraction_without_a_home_keeps_the_path() {
    assert_eq!(text(&contract_tilde(&path("/home/user/repos"), None)), "/home/user/repos");
}

#[test]
fn an_unset_or_empty_home_is_no_home() {
    assert!(home_from(None).is_none());
    assert!(home_from(some("")).is_none());
    assert_eq!(home_from(some("/home/user")).map(|p| text(&p)).as_deref(), Some("/home/user"));
}

#[test]
fn paths_are_split_into_components_and_rendered_back() {
    let p = path("/home//user/./repos/");

    assert_eq!(p.parts, ["/", "home", "user", "repos"]);
    assert_eq!(text(&p), "/home/user/repos");
    assert_eq!(path("./a/b").parts, [".", "a", "b"]);
    assert!(path("").parts.is_empty());
}
