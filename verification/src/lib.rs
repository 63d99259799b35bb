//! Fast project discovery.
//!
//! A run walks the configured search directories once, keeping what each
//! entry shows ([`scan`]); decides which directory each marker really belongs
//! to ([`root`]) and turns the findings into projects ([`finder`]); ranks the
//! projects against recorded visits ([`history`], [`output`]); and prints
//! them. The walk, the files and the printing belong to the caller: the
//! library is handed what they produced, and probes for the filesystem
//! questions it asks ([`fs`]).

pub mod text;
pub mod path;
pub mod order;
pub mod sort;
pub mod content;
pub mod marker;
pub mod fs;
pub mod git;
pub mod error;
pub mod config;
pub mod paths;
pub mod scan;
pub mod root;
pub mod finder;
pub mod history;
pub mod output;
pub mod completions;
pub mod shell;
pub mod dependencies;
