use mekle::config::{CliOptions, Config, FileConfig, OutputFormat};
use mekle::path::PathName;

fn cli() -> CliOptions {
    CliOptions {
        paths: Vec::new(),
        depth: None,
        verbose: false,
        max_results: None,
        json: false,
        null: false,
        exclude: Vec::new(),
    }
}

fn no_file() -> FileConfig {
    FileConfig {
        search_dirs: None,
        marker_files: None,
        workspace_files: None,
        exclude: None,
        depth: None,
        verbose: None,
        max_results: None,
    }
}

fn strings(items: &[&str]) -> Vec<String> {
    items.iter().map(|item| (*item).to_owned()).collect()
}

fn texts(paths: &[PathName]) -> Vec<String> {
    paths.iter().map(PathName::to_text).collect()
}

#[test]
fn defaults_are_used_without_a_config_file() {
    let config = Config::from_sources(cli(), None, None);

    assert_eq!(texts(&config.paths), ["."]);
    assert_eq!(config.depth, 5);
    assert!(config.exclude.is_empty());
    assert!(config.marker_files.iter().any(|file| file == "Cargo.toml"));
    assert!(config.workspace_files.iter().any(|file| file == "pnpm-workspace.yaml"));
    assert!(config.max_results.is_none());
    assert_eq!(config.output, OutputFormat::Path);
}

#[test]
fn file_values_replace_built_in_defaults() {
    let file = FileConfig {
        search_dirs: Some(vec![PathName::parse("/projects")]),
        marker_files: Some(strings(&["project.toml"])),
        workspace_files: Some(strings(&["workspace.toml"])),
        exclude: None,
        depth: Some(12),
        verbose: Some(true),
        max_results: Some(20),
    };

    let config = Config::from_sources(cli(), Some(file), None);

    assert_eq!(texts(&config.paths), ["/projects"]);
    assert_eq!(config.marker_files, ["project.toml"]);
    assert_eq!(config.workspace_files, ["workspace.toml"]);
    assert_eq!(config.depth, 12);
    assert!(config.verbose);
    assert_eq!(config.max_results, Some(20));
}

#[test]
fn command_line_values_override_the_file() {
    let file = FileConfig {
        search_dirs: Some(vec![PathName::parse("/from-file")]),
        depth: Some(12),
        max_results: Some(20),
        ..no_file()
    };
    let options = CliOptions {
        paths: vec![PathName::parse("/from-cli")],
        depth: Some(3),
        max_results: Some(2),
        ..cli()
    };

    let config = Config::from_sources(options, Some(file), None);

    assert_eq!(texts(&config.paths), ["/from-cli"]);
    assert_eq!(config.depth, 3);
    assert_eq!(config.max_results, Some(2));
}

#[test]
fn configured_search_dirs_are_expanded() {
    let file = FileConfig {
        search_dirs: Some(vec![PathName::parse("~/repos"), PathName::parse("/absolute")]),
        ..no_file()
    };
    let home = PathName::parse("/home/user");

    let config = Config::from_sources(cli(), Some(file), Some(&home));

    assert_eq!(texts(&config.paths), ["/home/user/repos", "/absolute"]);
}

#[test]
fn exclusions_are_loaded_from_the_file() {
    let file = FileConfig {
        exclude: Some(strings(&["target/", "**/vendor/", "/archive/"])),
        ..no_file()
    };

    let config = Config::from_sources(cli(), Some(file), None);

    assert_eq!(config.exclude, ["target/", "**/vendor/", "/archive/"]);
}

#[test]
fn repeated_cli_exclusions_are_collected() {
    let options = CliOptions {
        exclude: strings(&["target/", "node_modules/"]),
        ..cli()
    };

    let config = Config::from_sources(options, None, None);

    assert_eq!(config.exclude, ["target/", "node_modules/"]);
}

#[test]
fn cli_exclusions_append_to_configured_ones() {
    let file = FileConfig {
        exclude: Some(strings(&["target/"])),
        ..no_file()
    };
    let options = CliOptions {
        exclude: strings(&["dist/"]),
        ..cli()
    };

    let config = Config::from_sources(options, Some(file), None);

    assert_eq!(config.exclude, ["target/", "dist/"]);
}

#[test]
fn output_flags_pick_the_format() {
    let json = Config::from_sources(CliOptions { json: true, ..cli() }, None, None);
    let null = Config::from_sources(CliOptions { null: true, ..cli() }, None, None);

    assert_eq!(json.output, OutputFormat::Json);
    assert_eq!(null.output, OutputFormat::Null);
    assert_eq!(OutputFormat::default(), OutputFormat::Path);
}

#[test]
fn verbosity_from_the_file_survives_a_quiet_command_line() {
    let file = FileConfig {
        verbose: Some(true),
        ..no_file()
    };

    assert!(Config::from_sources(cli(), Some(file), None).verbose);
    assert!(Config::from_sources(CliOptions { verbose: true, ..cli() }, None, None).verbose);
}

#[test]
fn the_default_markers_and_workspace_files_are_complete() {
    let config = Config::defaults();

    assert_eq!(config.marker_files.len(), 13);
    assert_eq!(
        config.workspace_files,
        ["pnpm-workspace.yaml", "lerna.json", "yarn.lock", ".yarnrc.yml", "workspace.json"]
    );
}
