//! The effective configuration: built-in defaults, overridden by the
//! configuration file, overridden in turn by the command line.
//!
//! Reading the file and parsing the command line are the caller's business;
//! this module takes what they produced and combines it.

use crate::marker::MARKER_FILES;
use crate::path::{components, joined_with, texts, Parts, PathName};
use crate::paths::{expand_tilde, expanded, parts_of, tilde};
use vstd::prelude::*;

pub use crate::paths::contract_tilde;

verus! {

/// Files whose presence alone makes a directory a workspace root.
pub const WORKSPACE_FILES: [&'static str; 5] = [
    "pnpm-workspace.yaml",
    "lerna.json",
    "yarn.lock",
    ".yarnrc.yml",
    "workspace.json",
];

/// How deep a search descends unless told otherwise.
pub const DEFAULT_DEPTH: usize = 5;

/// How results are printed.
#[derive(Debug, Clone, Copy, PartialEq, Eq, Structural)]
pub enum OutputFormat {
    /// One path per line, shortened under home.
    Path,
    /// One JSON object per line.
    Json,
    /// Paths as they are, each followed by a NUL byte.
    Null,
}

impl Default for OutputFormat {
    fn default() -> (r: OutputFormat)
        ensures
            r == OutputFormat::Path,
    {
        OutputFormat::Path
    }
}

/// Everything a search needs to know.
#[derive(Debug)]
pub struct Config {
    /// The directories to search.
    pub paths: Vec<PathName>,
    pub marker_files: Vec<String>,
    pub workspace_files: Vec<String>,
    /// Gitignore-style patterns, relative to each search directory.
    pub exclude: Vec<String>,
    pub depth: usize,
    pub verbose: bool,
    /// How many results to print at most; never zero.
    pub max_results: Option<usize>,
    pub output: OutputFormat,
}

/// The values the configuration file may set; each is optional.
#[derive(Debug)]
pub struct FileConfig {
    pub search_dirs: Option<Vec<PathName>>,
    pub marker_files: Option<Vec<String>>,
    pub workspace_files: Option<Vec<String>>,
    pub exclude: Option<Vec<String>>,
    pub depth: Option<usize>,
    pub verbose: Option<bool>,
    pub max_results: Option<usize>,
}

/// The search options given on the command line.
#[derive(Debug)]
pub struct CliOptions {
    pub paths: Vec<PathName>,
    pub depth: Option<usize>,
    pub verbose: bool,
    pub max_results: Option<usize>,
    pub json: bool,
    pub null: bool,
    pub exclude: Vec<String>,
}

/// The components of each path.
pub open spec fn path_views(v: Seq<PathName>) -> Seq<Parts> {
    v.map_values(|p: PathName| p@)
}

/// What a [`Config`] holds, with paths and names as their characters.
pub struct ConfigView {
    pub paths: Seq<Parts>,
    pub marker_files: Seq<Seq<char>>,
    pub workspace_files: Seq<Seq<char>>,
    pub exclude: Seq<Seq<char>>,
    pub depth: usize,
    pub verbose: bool,
    pub max_results: Option<usize>,
    pub output: OutputFormat,
}

impl View for Config {
    type V = ConfigView;

    open spec fn view(&self) -> ConfigView {
        ConfigView {
            paths: path_views(self.paths@),
            marker_files: texts(self.marker_files@),
            workspace_files: texts(self.workspace_files@),
            exclude: texts(self.exclude@),
            depth: self.depth,
            verbose: self.verbose,
            max_results: self.max_results,
            output: self.output,
        }
    }
}

/// The characters of each of `names`.
pub open spec fn names(v: Seq<&'static str>) -> Seq<Seq<char>> {
    v.map_values(|s: &'static str| s@)
}

/// The built-in configuration: search the current directory five levels
/// deep for the known markers, exclude nothing, print plain paths.
pub open spec fn default_view() -> ConfigView {
    ConfigView {
        paths: seq![components("."@)],
        marker_files: names(MARKER_FILES@),
        workspace_files: names(WORKSPACE_FILES@),
        exclude: Seq::empty(),
        depth: DEFAULT_DEPTH,
        verbose: false,
        max_results: None,
        output: OutputFormat::Path,
    }
}

/// `c` with every value the configuration file sets replacing its own.
pub open spec fn with_file(c: ConfigView, f: FileConfig) -> ConfigView {
    ConfigView {
        paths: match f.search_dirs {
            Some(d) => path_views(d@),
            None => c.paths,
        },
        marker_files: match f.marker_files {
            Some(m) => texts(m@),
            None => c.marker_files,
        },
        workspace_files: match f.workspace_files {
            Some(w) => texts(w@),
            None => c.workspace_files,
        },
        exclude: match f.exclude {
            Some(e) => texts(e@),
            None => c.exclude,
        },
        depth: match f.depth {
            Some(d) => d,
            None => c.depth,
        },
        verbose: match f.verbose {
            Some(v) => v,
            None => c.verbose,
        },
        max_results: match f.max_results {
            Some(m) => Some(m),
            None => c.max_results,
        },
        output: c.output,
    }
}

/// The output format the command-line flags ask for.
pub open spec fn format_for(json: bool, null: bool) -> OutputFormat {
    if json {
        OutputFormat::Json
    } else if null {
        OutputFormat::Null
    } else {
        OutputFormat::Path
    }
}

/// `c` with the command line applied: paths given replace the search
/// directories, a depth or limit given replaces its value, `--verbose` turns
/// verbosity on, exclusions given are appended, and the flags pick the format.
pub open spec fn with_cli(c: ConfigView, cli: CliOptions) -> ConfigView {
    ConfigView {
        paths: if cli.paths@.len() > 0 {
            path_views(cli.paths@)
        } else {
            c.paths
        },
        marker_files: c.marker_files,
        workspace_files: c.workspace_files,
        exclude: c.exclude + texts(cli.exclude@),
        depth: match cli.depth {
            Some(d) => d,
            None => c.depth,
        },
        verbose: c.verbose || cli.verbose,
        max_results: match cli.max_results {
            Some(m) => Some(m),
            None => c.max_results,
        },
        output: format_for(cli.json, cli.null),
    }
}

/// Each of `ps` with a leading `~` replaced by `home`.
pub open spec fn expanded_all(ps: Seq<Parts>, home: Option<Parts>) -> Seq<Parts> {
    ps.map_values(|p: Parts| expanded(p, home))
}

/// `c` with a leading `~` in each search directory replaced by `home`.
pub open spec fn with_home(c: ConfigView, home: Option<Parts>) -> ConfigView {
    ConfigView {
        paths: expanded_all(c.paths, home),
        marker_files: c.marker_files,
        workspace_files: c.workspace_files,
        exclude: c.exclude,
        depth: c.depth,
        verbose: c.verbose,
        max_results: c.max_results,
        output: c.output,
    }
}

/// Every search directory has its own leading `~` replaced by home, wherever
/// it stands in the list: one that starts with a `~` component is home
/// followed by the rest of it, and any other, or any at all when there is no
/// home, is left as it is. Nothing else in the configuration changes.
pub proof fn lemma_every_search_directory_expanded(c: ConfigView, home: Option<Parts>)
    ensures
        with_home(c, home).paths.len() == c.paths.len(),
        forall|k: int| 0 <= k < c.paths.len() ==> #[trigger] with_home(c, home).paths[k] == expanded(c.paths[k], home),
        forall|k: int| 0 <= k < c.paths.len() ==> (home is Some && c.paths[k].len() > 0 && c.paths[k][0] == tilde()
            ==> #[trigger] with_home(c, home).paths[k] == joined_with(home->0, c.paths[k].drop_first())),
        forall|k: int| 0 <= k < c.paths.len() ==> (!(home is Some && c.paths[k].len() > 0 && c.paths[k][0] == tilde())
            ==> #[trigger] with_home(c, home).paths[k] == c.paths[k]),
        with_home(c, home).marker_files == c.marker_files,
        with_home(c, home).workspace_files == c.workspace_files,
        with_home(c, home).exclude == c.exclude,
        with_home(c, home).depth == c.depth,
        with_home(c, home).verbose == c.verbose,
        with_home(c, home).max_results == c.max_results,
        with_home(c, home).output == c.output,
{
}

/// Where each value comes from when a configuration file `f` and then the
/// command line `cli` are applied to `c`: the command line wins where it
/// gives a value, then the file, then `c`; search directories given on the
/// command line replace the others; exclusions from the command line are
/// added after the others; `--verbose` can only turn verbosity on; marker and
/// workspace files come from the file or `c`; the flags pick the format.
pub proof fn lemma_command_line_wins(c: ConfigView, f: FileConfig, cli: CliOptions)
    ensures
        ({
            let r = with_cli(with_file(c, f), cli);
            &&& r.paths == (if cli.paths@.len() > 0 {
                path_views(cli.paths@)
            } else if f.search_dirs is Some {
                path_views(f.search_dirs->0@)
            } else {
                c.paths
            })
            &&& r.depth == (if cli.depth is Some { cli.depth->0 } else if f.depth is Some { f.depth->0 } else { c.depth })
            &&& r.max_results == (if cli.max_results is Some { cli.max_results } else if f.max_results is Some { f.max_results } else { c.max_results })
            &&& r.verbose == (cli.verbose || (if f.verbose is Some { f.verbose->0 } else { c.verbose }))
            &&& r.exclude == (if f.exclude is Some { texts(f.exclude->0@) } else { c.exclude }) + texts(cli.exclude@)
            &&& r.marker_files == (if f.marker_files is Some { texts(f.marker_files->0@) } else { c.marker_files })
            &&& r.workspace_files == (if f.workspace_files is Some { texts(f.workspace_files->0@) } else { c.workspace_files })
            &&& r.output == (if cli.json { OutputFormat::Json } else if cli.null { OutputFormat::Null } else { OutputFormat::Path })
        }),
{
}

/// Owned copies of `names`.
fn owned_names(v: &[&'static str]) -> (r: Vec<String>)
    ensures
        texts(r@) == names(v@),
{
    let mut r: Vec<String> = Vec::new();
    let mut k: usize = 0;
    while k < v.len()
        invariant
            k <= v@.len(),
            texts(r@) == names(v@).take(k as int),
        decreases v.len() - k,
    {
        let ghost before = r@;
        r.push(v[k].to_owned());
        assert(texts(r@) =~= texts(before).push(v@[k as int]@));
        assert(names(v@).take(k + 1) =~= names(v@).take(k as int).push(v@[k as int]@));
        k = k + 1;
    }
    assert(names(v@).take(k as int) =~= names(v@));
    r
}

/// Copies of `v`.
pub(crate) fn copied_names(v: &Vec<String>) -> (r: Vec<String>)
    ensures
        texts(r@) == texts(v@),
{
    let mut r: Vec<String> = Vec::new();
    let mut k: usize = 0;
    while k < v.len()
        invariant
            k <= v@.len(),
            texts(r@) == texts(v@).take(k as int),
        decreases v.len() - k,
    {
        let ghost before = r@;
        r.push(v[k].clone());
        assert(texts(r@) =~= texts(before).push(v@[k as int]@));
        assert(texts(v@).take(k + 1) =~= texts(v@).take(k as int).push(v@[k as int]@));
        k = k + 1;
    }
    assert(texts(v@).take(k as int) =~= texts(v@));
    r
}

impl Config {
    /// The built-in configuration.
    pub fn defaults() -> (r: Config)
        ensures
            r@ == default_view(),
    {
        let mut paths: Vec<PathName> = Vec::new();
        paths.push(PathName::parse("."));
        let r = Config {
            paths,
            marker_files: owned_names(&MARKER_FILES),
            workspace_files: owned_names(&WORKSPACE_FILES),
            exclude: Vec::new(),
            depth: DEFAULT_DEPTH,
            verbose: false,
            max_results: None,
            output: OutputFormat::Path,
        };
        assert(path_views(r.paths@) =~= seq![components("."@)]);
        assert(texts(r.exclude@) =~= Seq::<Seq<char>>::empty());
        r
    }

    /// The configuration that results from the built-in defaults, the
    /// configuration file's values (if there is a file), the command line,
    /// and finally `~` expanded in the search directories.
    pub fn from_sources(cli: CliOptions, file: Option<FileConfig>, home: Option<&PathName>) -> (r: Config)
        ensures
            r@ == with_home(
                with_cli(
                    match file {
                        Some(f) => with_file(default_view(), f),
                        None => default_view(),
                    },
                    cli,
                ),
                parts_of(home),
            ),
    {
        let mut config = Config::defaults();
        match file {
            Some(f) => f.apply_to(&mut config),
            None => {},
        }
        cli.apply_to(&mut config);
        config.expand_paths(home);
        config
    }

    /// Expands a leading `~` in every search directory.
    pub fn expand_paths(&mut self, home: Option<&PathName>)
        ensures
            final(self)@ == with_home(old(self)@, parts_of(home)),
    {
        let ghost before = self@;
        let mut paths: Vec<PathName> = Vec::new();
        let mut k: usize = 0;
        while k < self.paths.len()
            invariant
                k <= self.paths@.len(),
                before == self@,
                path_views(paths@) == expanded_all(before.paths.take(k as int), parts_of(home)),
            decreases self.paths.len() - k,
        {
            let e = expand_tilde(&self.paths[k], home);
            let ghost prior = paths@;
            paths.push(e);
            assert(before.paths[k as int] == self.paths@[k as int]@);
            assert(path_views(paths@) =~= path_views(prior).push(e@));
            assert(expanded_all(before.paths.take(k + 1), parts_of(home)) =~= expanded_all(before.paths.take(k as int), parts_of(home)).push(e@));
            k = k + 1;
        }
        assert(before.paths.take(k as int) =~= before.paths);
        self.paths = paths;
    }
}

impl FileConfig {
    /// Replaces each of `config`'s values that the file sets.
    pub fn apply_to(self, config: &mut Config)
        ensures
            final(config)@ == with_file(old(config)@, self),
    {
        let FileConfig { search_dirs, marker_files, workspace_files, exclude, depth, verbose, max_results } = self;
        if let Some(dirs) = search_dirs {
            config.paths = dirs;
        }
        if let Some(m) = marker_files {
            config.marker_files = m;
        }
        if let Some(w) = workspace_files {
            config.workspace_files = w;
        }
        if let Some(e) = exclude {
            config.exclude = e;
        }
        if let Some(d) = depth {
            config.depth = d;
        }
        if let Some(v) = verbose {
            config.verbose = v;
        }
        if let Some(m) = max_results {
            config.max_results = Some(m);
        }
    }
}

impl CliOptions {
    /// Applies the command line to `config`.
    pub fn apply_to(self, config: &mut Config)
        ensures
            final(config)@ == with_cli(old(config)@, self),
    {
        let ghost before = config@;
        let CliOptions { paths, depth, verbose, max_results, json, null, exclude } = self;
        if paths.len() > 0 {
            config.paths = paths;
        }
        if let Some(d) = depth {
            config.depth = d;
        }
        if verbose {
            config.verbose = true;
        }
        if let Some(m) = max_results {
            config.max_results = Some(m);
        }
        let mut all: Vec<String> = Vec::new();
        std::mem::swap(&mut all, &mut config.exclude);
        let mut k: usize = 0;
        while k < exclude.len()
            invariant
                k <= exclude@.len(),
                texts(all@) == before.exclude + texts(exclude@).take(k as int),
            decreases exclude.len() - k,
        {
            let ghost prior = all@;
            all.push(exclude[k].clone());
            assert(texts(all@) =~= texts(prior).push(exclude@[k as int]@));
            assert(texts(exclude@).take(k + 1) =~= texts(exclude@).take(k as int).push(exclude@[k as int]@));
            assert(texts(all@) =~= before.exclude + texts(exclude@).take(k + 1));
            k = k + 1;
        }
        assert(texts(exclude@).take(k as int) =~= texts(exclude@));
        config.exclude = all;
        config.output = if json {
            OutputFormat::Json
        } else if null {
            OutputFormat::Null
        } else {
            OutputFormat::Path
        };
    }
}

} // verus!
