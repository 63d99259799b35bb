//! The library's error type.
//!
//! Every fallible operation of the library reports through [`Error`], so a
//! failure names the path, score or pattern it happened on. Failures of the
//! filesystem and of parsing belong to the program around the library.

use crate::path::PathName;
use vstd::prelude::*;

verus! {

/// Anything the library can refuse while discovering, ranking, or recording
/// projects.
#[derive(Debug)]
pub enum Error {
    /// A search directory or project directory does not exist.
    PathNotFound(PathName),
    /// Neither `XDG_DATA_HOME` nor `HOME` names a place for the history.
    HistoryLocationNotFound,
    /// The project has no entry in the history.
    HistoryEntryNotFound(PathName),
    /// A score below one point, or one too large to hold, in millionths of a
    /// point.
    InvalidScore(i128),
    /// The history at `path` was written in a layout this library cannot read.
    UnsupportedHistoryVersion { path: PathName, version: u8 },
    /// An exclusion pattern is not valid gitignore syntax.
    InvalidExcludePattern { pattern: String },
    /// The exclusion patterns could not be compiled together.
    InvalidExcludeSet,
    /// None of the named programs is installed.
    DependencyNotFound { name: String, url: String },
}

} // verus!
