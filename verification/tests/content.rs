use mekle::content::ContentTest;

fn check_contains_any() {
    let test = ContentTest::ContainsAny(&["\"workspaces\"", "\"workspace\""]);

    assert!(test.matches(r#"{"name": "x", "workspaces": ["a"]}"#));
    assert!(!test.matches(r#"{"name": "x"}"#));
}

fn check_line_starts_with() {
    let test = ContentTest::LineStartsWith("[workspace]");

    assert!(test.matches("# a comment\n[workspace]\nmembers = []"));
    assert!(test.matches("[workspace]"));
    assert!(!test.matches("[workspace.dependencies]\n"));
    assert!(!test.matches("[package]\nname = \"x\""));
}

fn check_non_empty() {
    assert!(ContentTest::NonEmpty.matches("{}"));
    assert!(!ContentTest::NonEmpty.matches("  \n\t\n"));
}

#[test]
fn commands_contains_any_matches_a_single_needle() {
    check_contains_any();
}

#[test]
fn commands_line_starts_with_ignores_position_in_file() {
    check_line_starts_with();
}

#[test]
fn commands_non_empty_ignores_whitespace_only_files() {
    check_non_empty();
}

#[test]
fn root_contains_any_matches_a_single_needle() {
    check_contains_any();
}

#[test]
fn root_line_starts_with_ignores_position_in_file() {
    check_line_starts_with();
}

#[test]
fn root_non_empty_ignores_whitespace_only_files() {
    check_non_empty();
}

#[test]
fn content_contains_any_matches_a_single_needle() {
    check_contains_any();
}

#[test]
fn content_line_starts_with_ignores_position_in_file() {
    check_line_starts_with();
}

#[test]
fn content_non_empty_ignores_whitespace_only_files() {
    check_non_empty();
}

#[test]
fn a_missing_file_matches_nothing() {
    assert!(!ContentTest::NonEmpty.matches_file(None));
}

#[test]
fn an_existing_file_is_judged_by_its_contents() {
    let contents = Some("[workspace]\nmembers = []\n");

    assert!(ContentTest::LineStartsWith("[workspace]").matches_file(contents));
    assert!(!ContentTest::LineStartsWith("[package]").matches_file(contents));
}

#[test]
fn a_needle_in_the_middle_of_a_line_counts() {
    let test = ContentTest::ContainsAny(&["workspaces"]);

    assert!(test.matches("[install]\nworkspaces = true\n"));
    assert!(!test.matches("[install]\nworkspace = true\n"));
}

#[test]
fn leading_whitespace_and_crlf_line_endings_are_ignored() {
    let test = ContentTest::LineStartsWith("[workspace]");

    assert!(test.matches("[package]\r\n   \t[workspace]\r\n"));
    assert!(!test.matches("x[workspace]\n"));
}

#[test]
fn unicode_whitespace_does_not_count_as_contents() {
    assert!(!ContentTest::NonEmpty.matches("\u{00A0}\u{2003}\n"));
    assert!(!ContentTest::NonEmpty.matches(""));
    assert!(ContentTest::NonEmpty.matches(" a "));
}
