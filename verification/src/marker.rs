//! The file names that identify projects, and how each finds its root.

use crate::text::same_text;
use vstd::prelude::*;

verus! {

/// File names that identify projects.
pub const MARKER_FILES: [&'static str; 13] = [
    "package.json",
    "pnpm-workspace.yaml",
    "lerna.json",
    "Cargo.toml",
    "go.mod",
    "pyproject.toml",
    "CMakeLists.txt",
    "Makefile",
    "justfile",
    "Justfile",
    "deno.json",
    "deno.jsonc",
    "bunfig.toml",
];

/// How a marker determines its project root.
#[derive(Debug, PartialEq, Eq, Hash)]
pub enum MarkerType {
    PackageJson,
    CargoToml,
    DenoJson,
    BuildFile(String),
    OtherConfig(String),
}

/// `name` is a build file, which resolves to the highest directory holding one.
pub open spec fn is_build_file(name: Seq<char>) -> bool {
    name == "Makefile"@ || name == "CMakeLists.txt"@ || name == "justfile"@ || name == "Justfile"@
}

/// `kind` is how a marker named `name` determines its root.
pub open spec fn classifies(kind: MarkerType, name: Seq<char>) -> bool {
    if name == "package.json"@ {
        kind == MarkerType::PackageJson
    } else if name == "Cargo.toml"@ {
        kind == MarkerType::CargoToml
    } else if name == "deno.json"@ || name == "deno.jsonc"@ {
        kind == MarkerType::DenoJson
    } else if is_build_file(name) {
        kind matches MarkerType::BuildFile(file) && file@ == name
    } else {
        kind matches MarkerType::OtherConfig(file) && file@ == name
    }
}

impl MarkerType {
    /// How a marker file named `file_name` determines its root.
    pub fn classify(file_name: &str) -> (r: MarkerType)
        ensures
            classifies(r, file_name@),
    {
        if same_text(file_name, "package.json") {
            MarkerType::PackageJson
        } else if same_text(file_name, "Cargo.toml") {
            MarkerType::CargoToml
        } else if same_text(file_name, "deno.json") || same_text(file_name, "deno.jsonc") {
            MarkerType::DenoJson
        } else if same_text(file_name, "Makefile") || same_text(file_name, "CMakeLists.txt")
            || same_text(file_name, "justfile") || same_text(file_name, "Justfile") {
            MarkerType::BuildFile(file_name.to_owned())
        } else {
            MarkerType::OtherConfig(file_name.to_owned())
        }
    }
}

impl<'a> From<&'a str> for MarkerType {
    fn from(file_name: &'a str) -> (r: MarkerType)
        ensures
            classifies(r, file_name@),
    {
        MarkerType::classify(file_name)
    }
}

impl<'a> vstd::std_specs::convert::FromSpecImpl<&'a str> for MarkerType {
    open spec fn obeys_from_spec() -> bool {
        false
    }

    open spec fn from_spec(v: &'a str) -> MarkerType {
        choose|kind: MarkerType| classifies(kind, v@)
    }
}

} // verus!
