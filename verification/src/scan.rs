//! What one walk of the search directories keeps: repository roots and paths
//! to marker files, and the entries it prunes.
//!
//! The walk itself belongs to the caller. For each entry it hands over what
//! it knows (the path, its depth, what kind of entry it is) and gets back
//! whether to descend and what, if anything, to record.
//!
//! Exclusions are gitignore-style patterns, interpreted relative to each search
//! directory by the `ignore` crate's matcher. What that matcher answers is
//! named, not restated: [`gitignore_ignores`] is its verdict for a root, the
//! lines it was built from, a path and whether the path is a directory.

use crate::config::path_views;
use crate::error::Error;
use crate::fs::EntryKind;
use crate::git::{marks_fails, marks_repository, marks_says};
use crate::path::{parent_of, rendered, texts, under, Parts, PathName};
use crate::text::{has_non_space, same_text, space_run_back};
use ignore::gitignore::{Gitignore, GitignoreBuilder};
use vstd::prelude::*;

verus! {

/// A matcher being built from gitignore lines.
#[verifier::external_type_specification]
#[verifier::external_body]
pub struct ExGitignoreBuilder(GitignoreBuilder);

/// A compiled gitignore matcher.
#[verifier::external_type_specification]
#[verifier::external_body]
pub struct ExGitignore(Gitignore);

/// The text each of a builder's globs was made from, in order.
pub uninterp spec fn builder_lines(b: GitignoreBuilder) -> Seq<Seq<char>>;

/// The root, as text, that a builder matches paths against.
pub uninterp spec fn builder_root(b: GitignoreBuilder) -> Seq<char>;

/// The text each of a matcher's globs was made from, in order.
pub uninterp spec fn matcher_lines(g: Gitignore) -> Seq<Seq<char>>;

/// The root, as text, that a matcher matches paths against.
pub uninterp spec fn matcher_root(g: Gitignore) -> Seq<char>;

/// Whether the builder takes `line`: it is a comment, blank, or a valid glob.
pub uninterp spec fn line_accepted(line: Seq<char>) -> bool;

/// Whether the globs of `lines` compile into one matcher.
pub uninterp spec fn lines_compile(lines: Seq<Seq<char>>) -> bool;

/// Whether a matcher for `root` whose globs came from `lines` ignores `path`,
/// which is a directory when `is_dir` holds: among the globs that apply to
/// it (a directory-only glob never applies to a file), the last one that
/// matches the path below `root` is not a negation.
pub uninterp spec fn gitignore_ignores(root: Seq<char>, lines: Seq<Seq<char>>, path: Seq<char>, is_dir: bool) -> bool;

/// Whether a builder turns `line` into a glob: it is neither a comment nor
/// blank.
pub open spec fn adds_glob(line: Seq<char>) -> bool {
    !(line.len() > 0 && line[0] == '#') && has_non_space(line)
}

/// The text a glob is made from: the line without its trailing whitespace,
/// unless it ends in an escaped space.
pub open spec fn glob_text(line: Seq<char>) -> Seq<char> {
    if line.len() >= 2 && line[line.len() - 2] == '\\' && line[line.len() - 1] == ' ' {
        line
    } else {
        line.subrange(0, space_run_back(line, line.len() as int))
    }
}

/// The texts the globs of `lines` are made from, in order.
pub open spec fn glob_lines(lines: Seq<Seq<char>>) -> Seq<Seq<char>>
    decreases lines.len(),
{
    if lines.len() == 0 {
        Seq::empty()
    } else if adds_glob(lines.last()) {
        glob_lines(lines.drop_last()).push(glob_text(lines.last()))
    } else {
        glob_lines(lines.drop_last())
    }
}

/// The root a builder keeps for `root`: without a leading `./`.
pub open spec fn stored_root(root: Seq<char>) -> Seq<char> {
    if root.len() >= 2 && root[0] == '.' && root[1] == '/' {
        root.subrange(2, root.len() as int)
    } else {
        root
    }
}

/// Starts a matcher for paths below `root`: `GitignoreBuilder::new`, which
/// holds no globs yet and keeps `root` without a leading `./`.
#[verifier::external_body]
fn new_builder(root: &str) -> (b: GitignoreBuilder)
    ensures
        builder_root(b) == stored_root(root@),
        builder_lines(b) == Seq::<Seq<char>>::empty(),
{
    GitignoreBuilder::new(root)
}

/// Adds a gitignore line: `GitignoreBuilder::add_line`. The source takes a
/// comment or a blank line without adding a glob, returns an error before
/// storing anything when the line's glob does not parse, and otherwise adds
/// the line's glob.
#[verifier::external_body]
fn add_pattern(b: &mut GitignoreBuilder, line: &str) -> (ok: bool)
    ensures
        ok == line_accepted(line@),
        ok && adds_glob(line@) ==> builder_lines(*final(b)) == builder_lines(*old(b)).push(glob_text(line@)),
        !(ok && adds_glob(line@)) ==> builder_lines(*final(b)) == builder_lines(*old(b)),
        builder_root(*final(b)) == builder_root(*old(b)),
{
    b.add_line(None, line).is_ok()
}

/// Compiles the globs added so far: `GitignoreBuilder::build`, which fails
/// only when the globs cannot be compiled together. A matcher with globs
/// keeps the builder's root; one without is the empty matcher.
#[verifier::external_body]
fn build_matcher(b: &GitignoreBuilder) -> (r: Option<Gitignore>)
    ensures
        r is Some <==> lines_compile(builder_lines(*b)),
        r matches Some(g) ==> matcher_lines(g) == builder_lines(*b)
            && (builder_lines(*b).len() > 0 ==> matcher_root(g) == builder_root(*b)),
{
    b.build().ok()
}

/// Asks a matcher about `path`: `Gitignore::matched`, and whether its verdict
/// is `Match::Ignore`. A matcher without globs matches nothing.
#[verifier::external_body]
fn ignores(g: &Gitignore, path: &str, is_dir: bool) -> (r: bool)
    ensures
        r == gitignore_ignores(matcher_root(*g), matcher_lines(*g), path@, is_dir),
        matcher_lines(*g).len() == 0 ==> !r,
{
    g.matched(path, is_dir).is_ignore()
}

/// One search directory's matcher.
#[derive(Debug)]
pub struct Exclusion {
    pub root: PathName,
    pub matcher: Gitignore,
}

/// The exclusions of every search directory, all built from the same lines.
#[derive(Debug)]
pub struct Exclusions {
    entries: Vec<Exclusion>,
    patterns: Vec<String>,
}

impl Exclusions {
    /// Each matcher belongs to its root and was built from the patterns.
    #[verifier::type_invariant]
    spec fn wf(&self) -> bool {
        forall|k: int| 0 <= k < self.entries@.len() ==> {
            &&& matcher_lines((#[trigger] self.entries@[k]).matcher) == glob_lines(texts(self.patterns@))
            &&& glob_lines(texts(self.patterns@)).len() > 0 ==> matcher_root(self.entries@[k].matcher) == stored_root(rendered(self.entries@[k].root@))
        }
    }

    /// The search directories, in order.
    pub closed spec fn roots(&self) -> Seq<Parts> {
        self.entries@.map_values(|e: Exclusion| e.root@)
    }

    /// The lines every matcher's globs came from.
    pub closed spec fn lines(&self) -> Seq<Seq<char>> {
        glob_lines(texts(self.patterns@))
    }

    /// Whether these exclusions skip `path`: there are globs, `path` lies
    /// under one of the roots, and that root's matcher ignores it.
    pub open spec fn excludes(&self, path: Parts, is_dir: bool) -> bool {
        exists|k: int|
            0 <= k < self.roots().len() && under(path, #[trigger] self.roots()[k]) && self.lines().len() > 0 && gitignore_ignores(
                stored_root(rendered(self.roots()[k])),
                self.lines(),
                rendered(path),
                is_dir,
            )
    }
}

/// The first of `patterns` that the builder refuses, if any.
pub open spec fn first_refused(patterns: Seq<Seq<char>>) -> int {
    if exists|i: int| 0 <= i < patterns.len() && !line_accepted(patterns[i]) && forall|j: int| 0 <= j < i ==> line_accepted(#[trigger] patterns[j]) {
        choose|i: int| 0 <= i < patterns.len() && !line_accepted(patterns[i]) && forall|j: int| 0 <= j < i ==> line_accepted(#[trigger] patterns[j])
    } else {
        -1
    }
}

/// Builds the matcher for `root` from `patterns`.
fn exclusion_for(root: &PathName, patterns: &Vec<String>) -> (r: Result<Exclusion, Error>)
    ensures
        match r {
            Ok(e) => e.root@ == root@ && matcher_lines(e.matcher) == glob_lines(texts(patterns@))
                && (glob_lines(texts(patterns@)).len() > 0 ==> matcher_root(e.matcher) == stored_root(rendered(root@)))
                && first_refused(texts(patterns@)) < 0 && lines_compile(glob_lines(texts(patterns@))),
            Err(Error::InvalidExcludePattern { pattern }) => {
                let i = first_refused(texts(patterns@));
                0 <= i && pattern@ == texts(patterns@)[i]
            },
            Err(Error::InvalidExcludeSet) => first_refused(texts(patterns@)) < 0 && !lines_compile(glob_lines(texts(patterns@))),
            Err(_) => false,
        },
{
    let ghost lines = texts(patterns@);
    let text = root.to_text();
    let mut builder = new_builder(text.as_str());
    let mut k: usize = 0;
    while k < patterns.len()
        invariant
            k <= patterns@.len(),
            lines == texts(patterns@),
            builder_root(builder) == stored_root(rendered(root@)),
            builder_lines(builder) == glob_lines(lines.take(k as int)),
            forall|j: int| 0 <= j < k ==> line_accepted(#[trigger] lines[j]),
        decreases patterns.len() - k,
    {
        if !add_pattern(&mut builder, patterns[k].as_str()) {
            proof {
                assert(!line_accepted(lines[k as int]));
                let i = first_refused(lines);
                assert(0 <= i < lines.len() && !line_accepted(lines[i]));
                if i < k {
                } else if i > k {
                    assert(line_accepted(lines[k as int]));
                }
            }
            return Err(Error::InvalidExcludePattern { pattern: patterns[k].clone() });
        }
        assert(lines.take(k + 1).drop_last() =~= lines.take(k as int));
        k = k + 1;
    }
    assert(lines.take(k as int) =~= lines);
    assert(first_refused(lines) < 0) by {
        if first_refused(lines) >= 0 {
            let i = first_refused(lines);
            assert(!line_accepted(lines[i]));
        }
    }
    match build_matcher(&builder) {
        Some(matcher) => Ok(Exclusion { root: root.duplicate(), matcher }),
        None => Err(Error::InvalidExcludeSet),
    }
}

/// Copies of `v`.
fn copy_patterns(v: &[String]) -> (r: Vec<String>)
    ensures
        texts(r@) == texts(v@),
{
    let mut r: Vec<String> = Vec::new();
    let mut k: usize = 0;
    while k < v.len()
        invariant
            k <= v@.len(),
            texts(r@) == texts(v@).take(k as int),
        decreases v.len() - k,
    {
        let ghost before = r@;
        r.push(v[k].clone());
        assert(texts(r@) =~= texts(before).push(v@[k as int]@));
        assert(texts(v@).take(k + 1) =~= texts(v@).take(k as int).push(v@[k as int]@));
        k = k + 1;
    }
    assert(texts(v@).take(k as int) =~= texts(v@));
    r
}

impl Exclusions {
    /// One matcher per search directory, so anchored patterns resolve against
    /// the directory they belong to. The patterns are checked even when there
    /// is no search directory: one that cannot be parsed, or a set that
    /// cannot be compiled, is an error either way.
    pub fn new(roots: &[PathName], patterns: &[String]) -> (r: Result<Exclusions, Error>)
        ensures
            r matches Ok(x) ==> x.lines() == glob_lines(texts(patterns@)) && x.roots() == path_views(roots@),
            match r {
                Ok(_) => first_refused(texts(patterns@)) < 0 && lines_compile(glob_lines(texts(patterns@))),
                Err(Error::InvalidExcludePattern { pattern }) => {
                    let i = first_refused(texts(patterns@));
                    0 <= i && pattern@ == texts(patterns@)[i]
                },
                Err(Error::InvalidExcludeSet) => first_refused(texts(patterns@)) < 0 && !lines_compile(glob_lines(texts(patterns@))),
                Err(_) => false,
            },
    {
        let copies = copy_patterns(patterns);
        if roots.len() == 0 {
            match exclusion_for(&PathName::parse(""), &copies) {
                Ok(_) => {},
                Err(err) => return Err(err),
            }
        }
        let mut entries: Vec<Exclusion> = Vec::new();
        let mut k: usize = 0;
        while k < roots.len()
            invariant
                k <= roots@.len(),
                texts(copies@) == texts(patterns@),
                entries@.len() == k,
                k > 0 || roots@.len() == 0 ==> first_refused(texts(patterns@)) < 0 && lines_compile(glob_lines(texts(patterns@))),
                forall|m: int| 0 <= m < k ==> {
                    &&& glob_lines(texts(patterns@)).len() > 0 ==> matcher_root((#[trigger] entries@[m]).matcher) == stored_root(rendered(entries@[m].root@))
                    &&& matcher_lines(entries@[m].matcher) == glob_lines(texts(patterns@))
                    &&& entries@[m].root@ == roots@[m]@
                },
            decreases roots.len() - k,
        {
            let e = match exclusion_for(&roots[k], &copies) {
                Ok(e) => e,
                Err(err) => return Err(err),
            };
            entries.push(e);
            k = k + 1;
        }
        let r = Exclusions { entries, patterns: copies };
        assert(r.roots() =~= path_views(roots@));
        Ok(r)
    }

    /// Whether `path`, a directory when `is_dir` holds, is excluded by the
    /// search directory it lies under. A matcher is only asked about paths
    /// below its own root, so a sibling whose name merely starts with the
    /// root's name is never excluded by it.
    pub fn matches(&self, path: &PathName, is_dir: bool) -> (r: bool)
        ensures
            r == self.excludes(path@, is_dir),
    {
        proof {
            use_type_invariant(self);
        }
        let text = path.to_text();
        let mut k: usize = 0;
        while k < self.entries.len()
            invariant
                k <= self.entries@.len(),
                self.wf(),
                text@ == rendered(path@),
                forall|m: int| 0 <= m < k ==> !(under(path@, #[trigger] self.roots()[m]) && self.lines().len() > 0 && gitignore_ignores(
                    stored_root(rendered(self.roots()[m])),
                    self.lines(),
                    rendered(path@),
                    is_dir,
                )),
            decreases self.entries.len() - k,
        {
            let e = &self.entries[k];
            assert(self.roots()[k as int] == e.root@);
            if path.starts_with(&e.root) && ignores(&e.matcher, text.as_str(), is_dir) {
                return true;
            }
            k = k + 1;
        }
        false
    }
}

/// How a walk goes on after an entry.
#[derive(Debug, Clone, Copy, PartialEq, Eq, Structural)]
pub enum WalkStep {
    /// Descend into the entry if it is a directory.
    Continue,
    /// Do not descend into the entry.
    Skip,
}

/// What an entry showed, worth recording.
#[derive(Debug)]
pub enum Finding {
    /// The root of a repository.
    Repository(PathName),
    /// A marker file or directory.
    Marker(PathName),
}

/// What to do after an entry, and what to record from it.
#[derive(Debug)]
pub struct Visit {
    pub step: WalkStep,
    pub finding: Option<Finding>,
}

/// Everything one walk found: repository roots and paths to marker files.
#[derive(Debug)]
pub struct DirectoryScan {
    pub git_repos: Vec<PathName>,
    pub marker_files: Vec<PathName>,
}

impl DirectoryScan {
    /// A scan that has found nothing yet.
    pub fn new() -> (r: DirectoryScan)
        ensures
            r.git_repos@.len() == 0,
            r.marker_files@.len() == 0,
    {
        DirectoryScan { git_repos: Vec::new(), marker_files: Vec::new() }
    }

    /// Keeps what an entry showed.
    pub fn record(&mut self, finding: Finding)
        ensures
            match finding {
                Finding::Repository(p) => final(self).git_repos@ == old(self).git_repos@.push(p)
                    && final(self).marker_files@ == old(self).marker_files@,
                Finding::Marker(p) => final(self).marker_files@ == old(self).marker_files@.push(p)
                    && final(self).git_repos@ == old(self).git_repos@,
            },
    {
        match finding {
            Finding::Repository(p) => self.git_repos.push(p),
            Finding::Marker(p) => self.marker_files.push(p),
        }
    }
}

/// Whether the last component of `path` is one of `names`.
fn named_one_of(path: &PathName, names: &[String]) -> (r: bool)
    ensures
        r == (path@.len() > 0 && texts(names@).contains(path@.last())),
{
    let n = path.parts.len();
    if n == 0 {
        return false;
    }
    let last = &path.parts[n - 1];
    let mut k: usize = 0;
    while k < names.len()
        invariant
            k <= names@.len(),
            n == path@.len() > 0,
            last@ == path@.last(),
            forall|m: int| 0 <= m < k ==> texts(names@)[m] != path@.last(),
        decreases names.len() - k,
    {
        if same_text(names[k].as_str(), last.as_str()) {
            assert(texts(names@)[k as int] == path@.last());
            return true;
        }
        k = k + 1;
    }
    assert forall|m: int| 0 <= m < texts(names@).len() implies texts(names@)[m] != path@.last() by {}
    false
}

/// The characters of `.git`.
pub open spec fn git_name() -> Seq<char> {
    seq!['.', 'g', 'i', 't']
}

/// What to do with the entry at `path`, `depth` levels below its search
/// directory, whose kind the walk reports as `kind`:
///
/// - a search directory itself, or an entry of unknown kind, is passed over;
/// - an excluded entry is pruned;
/// - anything but a file or directory is passed over;
/// - a `.git` that marks a repository records the directory holding it, and
///   the repository is not descended into; an unreadable one is passed over;
/// - a file or directory named like a marker is recorded, and a marker
///   directory is not descended into.
pub fn visit<E, K, R, D>(
    path: &PathName,
    depth: usize,
    kind: Option<EntryKind>,
    exclusions: &Exclusions,
    markers: &[String],
    entry_kind: &K,
    read_text: &R,
    is_dir: &D,
) -> (r: Visit)
    where
        K: Fn(&PathName) -> Result<Option<EntryKind>, E>,
        R: Fn(&PathName) -> Result<Option<String>, E>,
        D: Fn(&PathName) -> Result<bool, E>,
    requires
        forall|p: &PathName| entry_kind.requires((p,)),
        forall|p: &PathName| read_text.requires((p,)),
        forall|p: &PathName| is_dir.requires((p,)),
    ensures
        kind is None || depth == 0 ==> r.step == WalkStep::Continue && r.finding is None,
        kind is Some && depth > 0 ==> {
            let dir = kind == Some(EntryKind::Directory);
            let file = kind == Some(EntryKind::File);
            if exclusions.excludes(path@, dir) {
                r.step == WalkStep::Skip && r.finding is None
            } else if !dir && !file {
                r.step == WalkStep::Continue && r.finding is None
            } else if path@.len() > 0 && path@.last() == git_name() {
                &&& r.step == WalkStep::Skip ==> marks_says(*entry_kind, *read_text, *is_dir, path@, true)
                &&& r.step == WalkStep::Continue ==> r.finding is None && (marks_says(*entry_kind, *read_text, *is_dir, path@, false)
                    || exists|e: E| marks_fails(*entry_kind, *read_text, *is_dir, path@, e))
                &&& r.finding matches Some(f) ==> f matches Finding::Repository(p) && parent_of(path@) == Some(p@)
                &&& r.step == WalkStep::Skip && parent_of(path@) is Some ==> r.finding is Some
            } else if path@.len() > 0 && texts(markers@).contains(path@.last()) {
                &&& r.step == (if dir { WalkStep::Skip } else { WalkStep::Continue })
                &&& r.finding matches Some(f) && f matches Finding::Marker(p) && p@ == path@
            } else {
                r.step == WalkStep::Continue && r.finding is None
            }
        },
{
    let k = match kind {
        Some(k) => k,
        None => return Visit { step: WalkStep::Continue, finding: None },
    };
    if depth == 0 {
        return Visit { step: WalkStep::Continue, finding: None };
    }
    let dir = match k {
        EntryKind::Directory => true,
        _ => false,
    };
    let file = match k {
        EntryKind::File => true,
        _ => false,
    };
    if exclusions.matches(path, dir) {
        return Visit { step: WalkStep::Skip, finding: None };
    }
    if !dir && !file {
        return Visit { step: WalkStep::Continue, finding: None };
    }
    let mut git: Vec<String> = Vec::new();
    git.push(".git".to_owned());
    proof {
        reveal_strlit(".git");
        assert(git@[0]@ == git_name());
        assert(texts(git@) =~= seq![git_name()]);
    }
    if named_one_of(path, git.as_slice()) {
        assert(texts(git@)[0] == git_name());
        match marks_repository(path, entry_kind, read_text, is_dir) {
            Ok(true) => {
                return match path.parent() {
                    Some(parent) => Visit { step: WalkStep::Skip, finding: Some(Finding::Repository(parent)) },
                    None => Visit { step: WalkStep::Skip, finding: None },
                };
            },
            Ok(false) => {
                return Visit { step: WalkStep::Continue, finding: None };
            },
            Err(e) => {
                assert(marks_fails(*entry_kind, *read_text, *is_dir, path@, e));
                return Visit { step: WalkStep::Continue, finding: None };
            },
        }
    }
    assert(!(path@.len() > 0 && path@.last() == git_name())) by {
        if path@.len() > 0 && path@.last() == git_name() {
            assert(texts(git@)[0] == path@.last());
        }
    }
    if named_one_of(path, markers) {
        let step = if dir {
            WalkStep::Skip
        } else {
            WalkStep::Continue
        };
        return Visit { step, finding: Some(Finding::Marker(path.duplicate())) };
    }
    Visit { step: WalkStep::Continue, finding: None }
}

} // verus!
