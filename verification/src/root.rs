//! Deciding which directory a marker really belongs to.
//!
//! A `Cargo.toml`, `package.json` or Deno manifest resolves to the nearest
//! ancestor that is a workspace root or a repository. A build file resolves to
//! the repository around it, or else to the highest ancestor holding the same
//! build file. Any other marker resolves to the repository around it, or to
//! its own directory.
//!
//! What the resolver needs to know about the filesystem it asks through the
//! probes it is handed: whether a directory is a repository root, whether a
//! file's contents answer a [`ContentTest`], and whether a path exists. The
//! contracts say which answers the probes gave lead to which root.

use crate::config::{copied_names, Config};
use crate::content::{answers, contains_any, ContentTest};
use crate::text::{contains_text, has_non_space, lines, starts_with, trim_start};
use crate::fs::{fails_at, probe_fails, probe_says};
use crate::marker::{classifies, is_build_file, MarkerType};
use crate::finder::{assemble_projects, is_project, keys, lemma_pair_set_push, lemma_path_set_push, pair_set, path_set, prefix_of, project_position, roots_of};
use crate::path::{all_ancestors, ancestors_above, components, joined_with, texts, under, Parts, PathName};
use vstd::prelude::*;

verus! {

/// The needles that mark a JavaScript workspace manifest.
pub const JS_WORKSPACE: [&'static str; 2] = ["\"workspaces\"", "\"workspace\""];

/// The needles that mark a Deno workspace manifest.
pub const DENO_WORKSPACE: [&'static str; 2] = ["\"workspaces\"", "\"imports\""];

/// The needle that marks a Bun workspace configuration.
pub const BUN_WORKSPACE: [&'static str; 1] = ["workspaces"];

/// A `Cargo.toml` declaring a workspace.
pub open spec fn cargo_workspace() -> ContentTest {
    ContentTest::LineStartsWith("[workspace]")
}

/// How many files mark a workspace root by what they hold.
pub const WORKSPACE_RULE_COUNT: usize = 8;

/// The file the `i`th workspace rule reads.
pub open spec fn rule_file(i: int) -> Seq<char> {
    if i == 0 {
        "package.json"@
    } else if i == 1 {
        "deno.json"@
    } else if i == 2 {
        "deno.jsonc"@
    } else if i == 3 {
        "bunfig.toml"@
    } else if i == 4 {
        "Cargo.toml"@
    } else if i == 5 {
        "rush.json"@
    } else if i == 6 {
        "nx.json"@
    } else {
        "turbo.json"@
    }
}

/// What the `i`th workspace rule asks of its file.
pub open spec fn rule_test(i: int) -> ContentTest {
    if i == 0 {
        ContentTest::ContainsAny(&JS_WORKSPACE)
    } else if i == 1 || i == 2 {
        ContentTest::ContainsAny(&DENO_WORKSPACE)
    } else if i == 3 {
        ContentTest::ContainsAny(&BUN_WORKSPACE)
    } else if i == 4 {
        cargo_workspace()
    } else {
        ContentTest::NonEmpty
    }
}

/// The `i`th file that marks a workspace root by what it holds, and the test
/// its contents must answer.
pub fn workspace_rule(i: usize) -> (r: (&'static str, ContentTest))
    requires
        i < WORKSPACE_RULE_COUNT,
    ensures
        r.0@ == rule_file(i as int),
        r.1 == rule_test(i as int),
{
    if i == 0 {
        ("package.json", ContentTest::ContainsAny(&JS_WORKSPACE))
    } else if i == 1 {
        ("deno.json", ContentTest::ContainsAny(&DENO_WORKSPACE))
    } else if i == 2 {
        ("deno.jsonc", ContentTest::ContainsAny(&DENO_WORKSPACE))
    } else if i == 3 {
        ("bunfig.toml", ContentTest::ContainsAny(&BUN_WORKSPACE))
    } else if i == 4 {
        ("Cargo.toml", ContentTest::LineStartsWith("[workspace]"))
    } else if i == 5 {
        ("rush.json", ContentTest::NonEmpty)
    } else if i == 6 {
        ("nx.json", ContentTest::NonEmpty)
    } else {
        ("turbo.json", ContentTest::NonEmpty)
    }
}

/// What each workspace rule reads and asks, spelled out: `package.json` names
/// `"workspaces"` or `"workspace"`; `deno.json` and `deno.jsonc` name
/// `"workspaces"` or `"imports"`; `bunfig.toml` mentions `workspaces`;
/// `Cargo.toml` has a line starting `[workspace]`; `rush.json`, `nx.json`
/// and `turbo.json` hold anything at all.
pub proof fn lemma_workspace_rules(text: Seq<char>)
    ensures
        rule_file(0) == "package.json"@,
        answers(rule_test(0), text) == (contains_text(text, "\"workspaces\""@) || contains_text(text, "\"workspace\""@)),
        rule_file(1) == "deno.json"@,
        answers(rule_test(1), text) == (contains_text(text, "\"workspaces\""@) || contains_text(text, "\"imports\""@)),
        rule_file(2) == "deno.jsonc"@,
        answers(rule_test(2), text) == (contains_text(text, "\"workspaces\""@) || contains_text(text, "\"imports\""@)),
        rule_file(3) == "bunfig.toml"@,
        answers(rule_test(3), text) == contains_text(text, "workspaces"@),
        rule_file(4) == "Cargo.toml"@,
        answers(rule_test(4), text) == exists|k: int|
            0 <= k < lines(text).len() && starts_with(trim_start(#[trigger] lines(text)[k]), "[workspace]"@),
        rule_file(5) == "rush.json"@,
        rule_file(6) == "nx.json"@,
        rule_file(7) == "turbo.json"@,
        forall|i: int| 5 <= i < WORKSPACE_RULE_COUNT ==> answers(#[trigger] rule_test(i), text) == has_non_space(text),
{
    let js = JS_WORKSPACE@;
    let deno = DENO_WORKSPACE@;
    let bun = BUN_WORKSPACE@;
    assert(js.len() == 2 && js[0] == "\"workspaces\"" && js[1] == "\"workspace\"");
    assert(deno.len() == 2 && deno[0] == "\"workspaces\"" && deno[1] == "\"imports\"");
    assert(bun.len() == 1 && bun[0] == "workspaces");
    assert(contains_any(text, js) == (contains_text(text, "\"workspaces\""@) || contains_text(text, "\"workspace\""@))) by {
        if contains_text(text, "\"workspaces\""@) {
            assert(contains_text(text, js[0]@));
        }
        if contains_text(text, "\"workspace\""@) {
            assert(contains_text(text, js[1]@));
        }
    }
    assert(contains_any(text, deno) == (contains_text(text, "\"workspaces\""@) || contains_text(text, "\"imports\""@))) by {
        if contains_text(text, "\"workspaces\""@) {
            assert(contains_text(text, deno[0]@));
        }
        if contains_text(text, "\"imports\""@) {
            assert(contains_text(text, deno[1]@));
        }
    }
    assert(contains_any(text, bun) == contains_text(text, "workspaces"@)) by {
        if contains_text(text, "workspaces"@) {
            assert(contains_text(text, bun[0]@));
        }
    }
}

/// How each marker finds its root: `package.json`, `deno.json` and
/// `deno.jsonc` climb to a workspace root or repository, `Cargo.toml` to a
/// Cargo workspace or repository, the build files `Makefile`,
/// `CMakeLists.txt`, `justfile` and `Justfile` to the repository or the
/// highest directory holding the same file, and any other marker only to a
/// repository.
pub proof fn lemma_marker_checks(name: Seq<char>)
    ensures
        check_for("package.json"@) == Some(RootCheck::Workspace),
        check_for("deno.json"@) == Some(RootCheck::Workspace),
        check_for("deno.jsonc"@) == Some(RootCheck::Workspace),
        check_for("Cargo.toml"@) == Some(RootCheck::CargoWorkspace),
        check_for("Makefile"@) is None,
        check_for("CMakeLists.txt"@) is None,
        check_for("justfile"@) is None,
        check_for("Justfile"@) is None,
        name != "package.json"@ && name != "deno.json"@ && name != "deno.jsonc"@ && name != "Cargo.toml"@
            && name != "Makefile"@ && name != "CMakeLists.txt"@ && name != "justfile"@ && name != "Justfile"@
            ==> check_for(name) == Some(RootCheck::RepositoryOnly),
{
    reveal_strlit("package.json");
    reveal_strlit("deno.json");
    reveal_strlit("deno.jsonc");
    reveal_strlit("Cargo.toml");
    reveal_strlit("Makefile");
    reveal_strlit("CMakeLists.txt");
    reveal_strlit("justfile");
    reveal_strlit("Justfile");
    assert("Cargo.toml"@[0] != "package.json"@[0]);
    assert("Cargo.toml"@[0] != "deno.json"@[0]);
    assert("Cargo.toml"@[0] != "deno.jsonc"@[0]);
    assert("deno.json"@.len() != "package.json"@.len());
    assert("deno.jsonc"@.len() != "package.json"@.len());
    assert("Makefile"@[0] != "package.json"@[0] && "Makefile"@[0] != "deno.json"@[0] && "Makefile"@[0] != "Cargo.toml"@[0]);
    assert("CMakeLists.txt"@.len() != "package.json"@.len() && "CMakeLists.txt"@[0] != "deno.json"@[0]
        && "CMakeLists.txt"@.len() != "deno.jsonc"@.len() && "CMakeLists.txt"@[1] != "Cargo.toml"@[1]);
    assert("justfile"@[0] != "package.json"@[0] && "justfile"@[0] != "deno.json"@[0] && "justfile"@[0] != "Cargo.toml"@[0]);
    assert("Justfile"@[0] != "package.json"@[0] && "Justfile"@[0] != "deno.json"@[0] && "Justfile"@[0] != "Cargo.toml"@[0]);
}

/// `dir` joined with the path `name` names.
pub open spec fn child(dir: Parts, name: Seq<char>) -> Parts {
    joined_with(dir, components(name))
}

/// The content probe can answer `v` for file `p` and test `t`.
pub open spec fn content_says<E, M: Fn(&PathName, ContentTest) -> Result<bool, E>>(
    file_matches: M,
    p: Parts,
    t: ContentTest,
    v: bool,
) -> bool {
    exists|q: PathName| q@ == p && #[trigger] call_ensures(file_matches, (&q, t), Ok::<bool, E>(v))
}

/// The existence probe can answer `v` for path `p`.
pub open spec fn presence_says<X: Fn(&PathName) -> bool>(present: X, p: Parts, v: bool) -> bool {
    exists|q: PathName| q@ == p && #[trigger] call_ensures(present, (&q,), v)
}

/// The content probe `file_matches` can fail with `e` when asked whether
/// the file `p` answers `t`.
pub open spec fn content_fails_at<E, M: Fn(&PathName, ContentTest) -> Result<bool, E>>(
    file_matches: M,
    p: Parts,
    t: ContentTest,
    e: E,
) -> bool {
    exists|q: PathName| q@ == p && #[trigger] call_ensures(file_matches, (&q, t), Err::<bool, E>(e))
}

/// The content probe `file_matches` can fail with `e` for some file and test.
pub open spec fn content_fails<E, M: Fn(&PathName, ContentTest) -> Result<bool, E>>(file_matches: M, e: E) -> bool {
    exists|q: PathName, t: ContentTest| #[trigger] call_ensures(file_matches, (&q, t), Err::<bool, E>(e))
}

/// A failure `e` of `is_repo` or of `file_matches`: the only way a
/// resolution fails.
pub open spec fn resolve_fails<E, G: Fn(&PathName) -> Result<bool, E>, M: Fn(&PathName, ContentTest) -> Result<bool, E>>(
    is_repo: G,
    file_matches: M,
    e: E,
) -> bool {
    probe_fails(is_repo, e) || content_fails(file_matches, e)
}

/// The first `i` workspace rules all failed at `dir`.
pub open spec fn rules_fail<E, M: Fn(&PathName, ContentTest) -> Result<bool, E>>(file_matches: M, dir: Parts, i: int) -> bool {
    forall|j: int| 0 <= j < i ==> content_says(file_matches, child(dir, rule_file(j)), #[trigger] rule_test(j), false)
}

/// The first `k` workspace files are all absent from `dir`.
pub open spec fn files_absent<X: Fn(&PathName) -> bool>(present: X, dir: Parts, files: Seq<Seq<char>>, k: int) -> bool {
    forall|l: int| 0 <= l < k ==> presence_says(present, child(dir, #[trigger] files[l]), false)
}

/// The probes can say that `dir` is (`v`) or is not a workspace root: one of
/// the rules holds after the ones before it failed, or all of them fail and
/// then a workspace file is present after the ones before it were absent.
pub open spec fn workspace_says<E, M: Fn(&PathName, ContentTest) -> Result<bool, E>, X: Fn(&PathName) -> bool>(
    file_matches: M,
    present: X,
    files: Seq<Seq<char>>,
    dir: Parts,
    v: bool,
) -> bool {
    if v {
        (exists|i: int|
            0 <= i < WORKSPACE_RULE_COUNT && rules_fail(file_matches, dir, i) && #[trigger] content_says(file_matches, child(dir, rule_file(i)), rule_test(i), true))
        || (rules_fail(file_matches, dir, WORKSPACE_RULE_COUNT as int) && exists|k: int|
            0 <= k < files.len() && files_absent(present, dir, files, k) && #[trigger] presence_says(present, child(dir, files[k]), true))
    } else {
        rules_fail(file_matches, dir, WORKSPACE_RULE_COUNT as int) && files_absent(present, dir, files, files.len() as int)
    }
}

/// What an ascent checks at each ancestor besides whether it is a repository.
pub enum RootCheck {
    /// Nothing: only a repository stops the ascent.
    RepositoryOnly,
    /// Whether the ancestor is a workspace root.
    Workspace,
    /// Whether the ancestor's `Cargo.toml` declares a workspace.
    CargoWorkspace,
}

/// The ascent from `dir` settles on `r`: either the first ancestor above
/// `dir` at which `stop` held, every nearer one having let it `pass`, or
/// `dir` itself when every ancestor let it pass.
pub open spec fn ascent_settles(dir: Parts, r: Parts, stop: spec_fn(Parts) -> bool, pass: spec_fn(Parts) -> bool) -> bool {
    let ancs = ancestors_above(dir);
    (exists|k: int|
        0 <= k < ancs.len() && r == ancs[k] && stop(ancs[k]) && forall|i: int| 0 <= i < k ==> pass(#[trigger] ancs[i]))
        || (r == dir && forall|i: int| 0 <= i < ancs.len() ==> pass(#[trigger] ancs[i]))
}

/// The farthest of `ancs` that `has` marks, or `dir` when none is marked.
pub open spec fn highest_marked(ancs: Seq<Parts>, has: Seq<bool>, dir: Parts) -> Parts
    decreases ancs.len(),
{
    if ancs.len() == 0 || has.len() != ancs.len() {
        dir
    } else if has.last() {
        ancs.last()
    } else {
        highest_marked(ancs.drop_last(), has.drop_last(), dir)
    }
}

/// The ascent from `dir` for build file `name` settles on `r`: the first
/// repository above `dir`, or, when no ancestor is one, the farthest ancestor
/// holding the build file, or `dir` itself.
pub open spec fn build_ascent_settles<E, G: Fn(&PathName) -> Result<bool, E>, X: Fn(&PathName) -> bool>(
    is_repo: G,
    present: X,
    dir: Parts,
    name: Seq<char>,
    r: Parts,
) -> bool {
    let ancs = ancestors_above(dir);
    (exists|k: int|
        0 <= k < ancs.len() && r == ancs[k] && probe_says(is_repo, ancs[k], true) && forall|i: int|
            0 <= i < k ==> probe_says(is_repo, #[trigger] ancs[i], false))
        || (forall|i: int| 0 <= i < ancs.len() ==> probe_says(is_repo, #[trigger] ancs[i], false)) && exists|has: Seq<bool>|
            has.len() == ancs.len() && (forall|i: int| 0 <= i < ancs.len() ==> presence_says(present, child(#[trigger] ancs[i], name), has[i]))
                && r == highest_marked(ancs, has, dir)
}

/// The probes can say that `a` does (`v`) or does not hold what `check` asks.
pub open spec fn check_says<E, M: Fn(&PathName, ContentTest) -> Result<bool, E>, X: Fn(&PathName) -> bool>(
    check: RootCheck,
    file_matches: M,
    present: X,
    files: Seq<Seq<char>>,
    a: Parts,
    v: bool,
) -> bool {
    match check {
        RootCheck::RepositoryOnly => !v,
        RootCheck::Workspace => workspace_says(file_matches, present, files, a, v),
        RootCheck::CargoWorkspace => content_says(file_matches, child(a, "Cargo.toml"@), cargo_workspace(), v),
    }
}

/// How `file_matches` can fail (with `e`) while `check` is asked of `a`.
pub open spec fn check_fails<E, M: Fn(&PathName, ContentTest) -> Result<bool, E>>(check: RootCheck, file_matches: M, a: Parts, e: E) -> bool {
    match check {
        RootCheck::RepositoryOnly => false,
        RootCheck::Workspace => workspace_fails(file_matches, a, e),
        RootCheck::CargoWorkspace => content_fails_at(file_matches, child(a, "Cargo.toml"@), cargo_workspace(), e),
    }
}

/// How `file_matches` can fail (with `e`) while asked whether `dir` is a
/// workspace root: on the file of one of the workspace rules.
pub open spec fn workspace_fails<E, M: Fn(&PathName, ContentTest) -> Result<bool, E>>(file_matches: M, dir: Parts, e: E) -> bool {
    exists|j: int| 0 <= j < WORKSPACE_RULE_COUNT && content_fails_at(file_matches, child(dir, rule_file(j)), #[trigger] rule_test(j), e)
}

/// How `is_repo` can fail (with `e`) on the climb from `dir`: on one of
/// its ancestors.
pub open spec fn climb_fails<E, G: Fn(&PathName) -> Result<bool, E>>(is_repo: G, dir: Parts, e: E) -> bool {
    let ancs = ancestors_above(dir);
    exists|k: int| 0 <= k < ancs.len() && fails_at(is_repo, #[trigger] ancs[k], e)
}

/// How the probes can fail (with `e`) on the climb from `dir` that asks
/// `check` of each ancestor: `is_repo` on one of them, or `file_matches`
/// while `check` is asked of one.
pub open spec fn ascent_fails<E, G: Fn(&PathName) -> Result<bool, E>, M: Fn(&PathName, ContentTest) -> Result<bool, E>>(
    check: RootCheck,
    is_repo: G,
    file_matches: M,
    dir: Parts,
    e: E,
) -> bool {
    let ancs = ancestors_above(dir);
    exists|k: int| 0 <= k < ancs.len() && (fails_at(is_repo, #[trigger] ancs[k], e) || check_fails(check, file_matches, ancs[k], e))
}

/// How the probes can fail (with `e`) while the marker named `name` found
/// in `dir` is resolved.
pub open spec fn resolution_fails<E, G: Fn(&PathName) -> Result<bool, E>, M: Fn(&PathName, ContentTest) -> Result<bool, E>>(
    is_repo: G,
    file_matches: M,
    dir: Parts,
    name: Seq<char>,
    e: E,
) -> bool {
    match check_for(name) {
        Some(c) => ascent_fails(c, is_repo, file_matches, dir, e),
        None => climb_fails(is_repo, dir, e),
    }
}

/// A failure while a marker is resolved is a failure of `is_repo` or of
/// `file_matches`.
pub proof fn lemma_resolution_fails<E, G: Fn(&PathName) -> Result<bool, E>, M: Fn(&PathName, ContentTest) -> Result<bool, E>>(
    is_repo: G,
    file_matches: M,
    dir: Parts,
    name: Seq<char>,
    e: E,
)
    requires
        resolution_fails(is_repo, file_matches, dir, name, e),
    ensures
        resolve_fails(is_repo, file_matches, e),
{
    let ancs = ancestors_above(dir);
    let k = choose|k: int| 0 <= k < ancs.len() && (fails_at(is_repo, #[trigger] ancs[k], e)
        || (check_for(name) matches Some(c) && check_fails(c, file_matches, ancs[k], e)));
    if fails_at(is_repo, ancs[k], e) {
        let q = choose|q: PathName| q@ == ancs[k] && #[trigger] call_ensures(is_repo, (&q,), Err::<bool, E>(e));
        assert(probe_fails(is_repo, e));
    } else {
        let c = check_for(name)->0;
        let (p, t) = match c {
            RootCheck::Workspace => {
                let j = choose|j: int| 0 <= j < WORKSPACE_RULE_COUNT
                    && content_fails_at(file_matches, child(ancs[k], rule_file(j)), #[trigger] rule_test(j), e);
                (child(ancs[k], rule_file(j)), rule_test(j))
            },
            _ => (child(ancs[k], "Cargo.toml"@), cargo_workspace()),
        };
        assert(content_fails_at(file_matches, p, t, e));
        let q = choose|q: PathName| q@ == p && #[trigger] call_ensures(file_matches, (&q, t), Err::<bool, E>(e));
        assert(content_fails(file_matches, e));
    }
}

/// The root an ascent with `check` may settle on from `dir`.
pub open spec fn checked_ascent<E, G: Fn(&PathName) -> Result<bool, E>, M: Fn(&PathName, ContentTest) -> Result<bool, E>, X: Fn(&PathName) -> bool>(
    check: RootCheck,
    is_repo: G,
    file_matches: M,
    present: X,
    files: Seq<Seq<char>>,
    dir: Parts,
    r: Parts,
) -> bool {
    ascent_settles(
        dir,
        r,
        |a: Parts| probe_says(is_repo, a, true) || (probe_says(is_repo, a, false) && check_says(check, file_matches, present, files, a, true)),
        |a: Parts| probe_says(is_repo, a, false) && check_says(check, file_matches, present, files, a, false),
    )
}

/// What the ascent for a marker named `name` checks besides repositories;
/// nothing for a build file, whose ascent differs.
pub open spec fn check_for(name: Seq<char>) -> Option<RootCheck> {
    if name == "package.json"@ || name == "deno.json"@ || name == "deno.jsonc"@ {
        Some(RootCheck::Workspace)
    } else if name == "Cargo.toml"@ {
        Some(RootCheck::CargoWorkspace)
    } else if is_build_file(name) {
        None
    } else {
        Some(RootCheck::RepositoryOnly)
    }
}

/// The root a marker named `name` found in `dir` may resolve to, given what
/// the probes can say.
pub open spec fn resolves_to<E, G: Fn(&PathName) -> Result<bool, E>, M: Fn(&PathName, ContentTest) -> Result<bool, E>, X: Fn(&PathName) -> bool>(
    is_repo: G,
    file_matches: M,
    present: X,
    files: Seq<Seq<char>>,
    dir: Parts,
    name: Seq<char>,
    r: Parts,
) -> bool {
    match check_for(name) {
        Some(check) => checked_ascent(check, is_repo, file_matches, present, files, dir, r),
        None => build_ascent_settles(is_repo, present, dir, name, r),
    }
}

/// The deepest of the first `n + 1` leading runs of `dir` that is a project,
/// or `dir` itself when none is.
pub open spec fn deepest_project(dir: Parts, n: int, repos: Set<Parts>, cands: Set<Parts>) -> Parts
    decreases n + 1,
{
    if n < 0 || n > dir.len() {
        dir
    } else if is_project(dir.subrange(0, n), repos, cands) {
        dir.subrange(0, n)
    } else {
        deepest_project(dir, n - 1, repos, cands)
    }
}

/// What the probes can say about the ancestors of `dir`: `repos` holds the
/// ancestors that are repositories, and `pairs` the roots that the markers
/// present in the ancestors resolved to, with the marker names.
pub open spec fn directory_facts<
    E,
    G: Fn(&PathName) -> Result<bool, E>,
    M: Fn(&PathName, ContentTest) -> Result<bool, E>,
    X: Fn(&PathName) -> bool,
    T: Fn(&PathName) -> Result<bool, E>,
>(
    is_repo: G,
    file_matches: M,
    present: X,
    try_exists: T,
    markers: Seq<Seq<char>>,
    files: Seq<Seq<char>>,
    dir: Parts,
    repos: Set<Parts>,
    pairs: Set<(Parts, Seq<char>)>,
) -> bool {
    let ancs = all_ancestors(dir);
    &&& forall|a: Parts| #[trigger] repos.contains(a) ==> ancs.contains(a)
    &&& forall|i: int| 0 <= i < ancs.len() ==> probe_says(is_repo, #[trigger] ancs[i], repos.contains(ancs[i]))
    &&& forall|c: Parts, m: Seq<char>| #[trigger] pairs.contains((c, m)) ==> markers.contains(m) && exists|i: int|
        0 <= i < ancs.len() && probe_says(try_exists, child(#[trigger] ancs[i], m), true)
            && resolves_to(is_repo, file_matches, present, files, ancs[i], m, c)
    &&& forall|i: int, k: int| 0 <= i < ancs.len() && 0 <= k < markers.len() ==> probe_says(try_exists, child(#[trigger] ancs[i], #[trigger] markers[k]), false)
        || exists|c: Parts| #[trigger] pairs.contains((c, markers[k])) && resolves_to(is_repo, file_matches, present, files, ancs[i], markers[k], c)
}

/// Resolves markers to the project roots they belong to.
#[derive(Debug)]
pub struct RootResolver {
    pub marker_files: Vec<String>,
    pub workspace_files: Vec<String>,
}

impl RootResolver {
    /// A resolver that knows no marker files, with the given workspace files.
    pub fn new(workspace_files: Vec<String>) -> (r: RootResolver)
        ensures
            r.marker_files@.len() == 0,
            r.workspace_files@ == workspace_files@,
    {
        RootResolver { marker_files: Vec::new(), workspace_files }
    }

    /// A resolver that knows the marker and workspace files of `config`.
    pub fn from_config(config: &Config) -> (r: RootResolver)
        ensures
            texts(r.marker_files@) == config@.marker_files,
            texts(r.workspace_files@) == config@.workspace_files,
    {
        RootResolver { marker_files: copied_names(&config.marker_files), workspace_files: copied_names(&config.workspace_files) }
    }

    /// The workspace files, as texts.
    pub open spec fn workspace_texts(&self) -> Seq<Seq<char>> {
        crate::path::texts(self.workspace_files@)
    }

    /// Whether `dir` is the root of a multi-package workspace: one of the
    /// workspace rules holds, or one of the workspace files is present.
    /// The first failure of a probe is the error.
    #[verifier::spinoff_prover]
    pub fn is_workspace_root<E, M, X>(&self, dir: &PathName, file_matches: &M, present: &X) -> (r: Result<bool, E>)
        where
            M: Fn(&PathName, ContentTest) -> Result<bool, E>,
            X: Fn(&PathName) -> bool,
        requires
            forall|p: &PathName, t: ContentTest| file_matches.requires((p, t)),
            forall|p: &PathName| present.requires((p,)),
        ensures
            r matches Ok(v) ==> workspace_says(*file_matches, *present, self.workspace_texts(), dir@, v),
            r matches Err(e) ==> workspace_fails(*file_matches, dir@, e),
    {
        let mut i: usize = 0;
        while i < WORKSPACE_RULE_COUNT
            invariant
                i <= WORKSPACE_RULE_COUNT,
                forall|p: &PathName, t: ContentTest| file_matches.requires((p, t)),
                rules_fail(*file_matches, dir@, i as int),
            decreases WORKSPACE_RULE_COUNT - i,
        {
            let (name, test) = workspace_rule(i);
            let file = dir.join(&PathName::parse(name));
            let answer = file_matches(&file, test);
            match answer {
                Ok(true) => {
                    assert(content_says(*file_matches, child(dir@, rule_file(i as int)), rule_test(i as int), true));
                    return Ok(true);
                },
                Ok(false) => {
                    assert(content_says(*file_matches, child(dir@, rule_file(i as int)), rule_test(i as int), false));
                    assert forall|j: int| 0 <= j < i + 1 implies content_says(*file_matches, child(dir@, rule_file(j)), #[trigger] rule_test(j), false) by {}
                },
                Err(e) => {
                    assert(content_fails_at(*file_matches, child(dir@, rule_file(i as int)), rule_test(i as int), e));
                    return Err(e);
                },
            }
            i = i + 1;
        }
        let mut k: usize = 0;
        while k < self.workspace_files.len()
            invariant
                k <= self.workspace_files@.len(),
                forall|p: &PathName| present.requires((p,)),
                rules_fail(*file_matches, dir@, WORKSPACE_RULE_COUNT as int),
                files_absent(*present, dir@, self.workspace_texts(), k as int),
            decreases self.workspace_files.len() - k,
        {
            let file = dir.join(&PathName::parse(self.workspace_files[k].as_str()));
            assert(self.workspace_texts()[k as int] == self.workspace_files@[k as int]@);
            if present(&file) {
                assert(presence_says(*present, child(dir@, self.workspace_texts()[k as int]), true));
                return Ok(true);
            }
            assert(presence_says(*present, child(dir@, self.workspace_texts()[k as int]), false));
            assert forall|l: int| 0 <= l < k + 1 implies presence_says(*present, child(dir@, #[trigger] self.workspace_texts()[l]), false) by {}
            k = k + 1;
        }
        Ok(false)
    }

    /// Whether `a` holds what `check` asks.
    fn check_at<E, M, X>(&self, check: &RootCheck, a: &PathName, file_matches: &M, present: &X) -> (r: Result<bool, E>)
        where
            M: Fn(&PathName, ContentTest) -> Result<bool, E>,
            X: Fn(&PathName) -> bool,
        requires
            forall|p: &PathName, t: ContentTest| file_matches.requires((p, t)),
            forall|p: &PathName| present.requires((p,)),
        ensures
            r matches Ok(v) ==> check_says(*check, *file_matches, *present, self.workspace_texts(), a@, v),
            r matches Err(e) ==> check_fails(*check, *file_matches, a@, e),
    {
        match check {
            RootCheck::RepositoryOnly => Ok(false),
            RootCheck::Workspace => self.is_workspace_root(a, file_matches, present),
            RootCheck::CargoWorkspace => {
                let file = a.join(&PathName::parse("Cargo.toml"));
                let answer = file_matches(&file, ContentTest::LineStartsWith("[workspace]"));
                match answer {
                    Ok(v) => {
                        assert(content_says(*file_matches, child(a@, "Cargo.toml"@), cargo_workspace(), v));
                        Ok(v)
                    },
                    Err(e) => {
                        assert(content_fails_at(*file_matches, child(a@, "Cargo.toml"@), cargo_workspace(), e));
                        Err(e)
                    },
                }
            },
        }
    }

    /// Climbs from `dir` to the first ancestor that is a repository or holds
    /// what `check` asks, or stays at `dir` when none does.
    /// The first failure of a probe is the error.
    #[verifier::spinoff_prover]
    pub fn ascend_to_root<E, G, M, X>(&self, dir: &PathName, check: RootCheck, is_repo: &G, file_matches: &M, present: &X) -> (r: Result<PathName, E>)
        where
            G: Fn(&PathName) -> Result<bool, E>,
            M: Fn(&PathName, ContentTest) -> Result<bool, E>,
            X: Fn(&PathName) -> bool,
        requires
            forall|p: &PathName| is_repo.requires((p,)),
            forall|p: &PathName, t: ContentTest| file_matches.requires((p, t)),
            forall|p: &PathName| present.requires((p,)),
        ensures
            r matches Ok(root) ==> checked_ascent(check, *is_repo, *file_matches, *present, self.workspace_texts(), dir@, root@),
            r matches Err(e) ==> ascent_fails(check, *is_repo, *file_matches, dir@, e),
    {
        let ghost files = self.workspace_texts();
        let ancestors = dir.ancestors_above();
        let ghost ancs = ancestors_above(dir@);
        assert(ancestors@.len() == ancs.len());
        let mut k: usize = 0;
        while k < ancestors.len()
            invariant
                k <= ancestors@.len() == ancs.len(),
                ancs == ancestors_above(dir@),
                forall|i: int| 0 <= i < ancestors@.len() ==> #[trigger] ancestors@[i]@ == ancs[i],
                forall|p: &PathName| is_repo.requires((p,)),
                forall|p: &PathName, t: ContentTest| file_matches.requires((p, t)),
                forall|p: &PathName| present.requires((p,)),
                files == self.workspace_texts(),
                forall|i: int| 0 <= i < k ==> probe_says(*is_repo, #[trigger] ancs[i], false) && check_says(check, *file_matches, *present, files, ancs[i], false),
            decreases ancestors.len() - k,
        {
            let parent = &ancestors[k];
            let repo = match is_repo(parent) {
                Ok(v) => v,
                Err(e) => {
                    assert(fails_at(*is_repo, ancs[k as int], e));
                    return Err(e);
                },
            };
            assert(probe_says(*is_repo, ancs[k as int], repo));
            if repo {
                return Ok(parent.duplicate());
            }
            let held = match self.check_at(&check, parent, file_matches, present) {
                Ok(v) => v,
                Err(e) => {
                    assert(check_fails(check, *file_matches, ancs[k as int], e));
                    return Err(e);
                },
            };
            if held {
                return Ok(parent.duplicate());
            }
            k = k + 1;
        }
        Ok(dir.duplicate())
    }

    /// Climbs from `dir` to the repository around it, or, when there is
    /// none, to the farthest ancestor that holds `build_file` too.
    /// The first failure of a probe is the error.
    #[verifier::spinoff_prover]
    pub fn ascend_to_highest_build_file<E, G, X>(&self, dir: &PathName, build_file: &str, is_repo: &G, present: &X) -> (r: Result<PathName, E>)
        where
            G: Fn(&PathName) -> Result<bool, E>,
            X: Fn(&PathName) -> bool,
        requires
            forall|p: &PathName| is_repo.requires((p,)),
            forall|p: &PathName| present.requires((p,)),
        ensures
            r matches Ok(root) ==> build_ascent_settles(*is_repo, *present, dir@, build_file@, root@),
            r matches Err(e) ==> climb_fails(*is_repo, dir@, e),
    {
        let ancestors = dir.ancestors_above();
        let ghost ancs = ancestors_above(dir@);
        assert(ancestors@.len() == ancs.len());
        let name = PathName::parse(build_file);
        let mut highest = dir.duplicate();
        let ghost mut has: Seq<bool> = Seq::empty();
        assert(ancs.subrange(0, 0) =~= Seq::<Parts>::empty());
        let mut k: usize = 0;
        while k < ancestors.len()
            invariant
                k <= ancestors@.len() == ancs.len(),
                ancs == ancestors_above(dir@),
                name@ == components(build_file@),
                forall|i: int| 0 <= i < ancestors@.len() ==> #[trigger] ancestors@[i]@ == ancs[i],
                forall|p: &PathName| is_repo.requires((p,)),
                forall|p: &PathName| present.requires((p,)),
                has.len() == k,
                forall|i: int| 0 <= i < k ==> probe_says(*is_repo, #[trigger] ancs[i], false) && presence_says(*present, child(ancs[i], build_file@), has[i]),
                highest@ == highest_marked(ancs.subrange(0, k as int), has, dir@),
            decreases ancestors.len() - k,
        {
            let parent = &ancestors[k];
            let file = parent.join(&name);
            let here = present(&file);
            assert(presence_says(*present, child(ancs[k as int], build_file@), here));
            proof {
                let next = ancs.subrange(0, k + 1);
                assert(next.drop_last() =~= ancs.subrange(0, k as int));
                assert(has.push(here).drop_last() =~= has);
            }
            if here {
                highest = parent.duplicate();
            }
            proof {
                has = has.push(here);
            }
            let repo = match is_repo(parent) {
                Ok(v) => v,
                Err(e) => {
                    assert(fails_at(*is_repo, ancs[k as int], e));
                    return Err(e);
                },
            };
            assert(probe_says(*is_repo, ancs[k as int], repo));
            if repo {
                return Ok(parent.duplicate());
            }
            k = k + 1;
        }
        assert(ancs.subrange(0, k as int) =~= ancs);
        Ok(highest)
    }

    /// Resolves the marker named `marker_name` found in `dir` to its project
    /// root.
    /// The first failure of a probe is the error.
    pub fn resolve<E, G, M, X>(&self, dir: &PathName, marker_name: &str, is_repo: &G, file_matches: &M, present: &X) -> (r: Result<PathName, E>)
        where
            G: Fn(&PathName) -> Result<bool, E>,
            M: Fn(&PathName, ContentTest) -> Result<bool, E>,
            X: Fn(&PathName) -> bool,
        requires
            forall|p: &PathName| is_repo.requires((p,)),
            forall|p: &PathName, t: ContentTest| file_matches.requires((p, t)),
            forall|p: &PathName| present.requires((p,)),
        ensures
            r matches Ok(root) ==> resolves_to(*is_repo, *file_matches, *present, self.workspace_texts(), dir@, marker_name@, root@),
            r matches Err(e) ==> resolution_fails(*is_repo, *file_matches, dir@, marker_name@, e),
    {
        let kind = MarkerType::classify(marker_name);
        let check = match &kind {
            MarkerType::PackageJson => Some(RootCheck::Workspace),
            MarkerType::DenoJson => Some(RootCheck::Workspace),
            MarkerType::CargoToml => Some(RootCheck::CargoWorkspace),
            MarkerType::BuildFile(_) => None,
            MarkerType::OtherConfig(_) => Some(RootCheck::RepositoryOnly),
        };
        proof {
            if kind == MarkerType::CargoToml {
                reveal_strlit("Cargo.toml");
                reveal_strlit("deno.json");
                reveal_strlit("deno.jsonc");
                reveal_strlit("package.json");
                assert("Cargo.toml"@[0] != "deno.jsonc"@[0]);
                assert("Cargo.toml"@[0] != "deno.json"@[0]);
                assert("Cargo.toml"@[0] != "package.json"@[0]);
            }
        }
        assert(check == check_for(marker_name@));
        match check {
            Some(c) => self.ascend_to_root(dir, c, is_repo, file_matches, present),
            None => self.ascend_to_highest_build_file(dir, marker_name, is_repo, present),
        }
    }

    /// The marker names, as texts.
    pub open spec fn marker_texts(&self) -> Seq<Seq<char>> {
        texts(self.marker_files@)
    }

    /// Resolves an arbitrary directory to the most specific project root that
    /// discovery would report for one of its ancestors: the deepest of them
    /// that the repositories among them and the roots of the markers in them
    /// make a project, or `dir` itself.
    /// The first failure of a probe is the error.
    #[verifier::spinoff_prover]
    pub fn resolve_directory<E, G, M, X, T>(
        &self,
        dir: &PathName,
        is_repo: &G,
        file_matches: &M,
        present: &X,
        try_exists: &T,
    ) -> (r: Result<PathName, E>)
        where
            G: Fn(&PathName) -> Result<bool, E>,
            M: Fn(&PathName, ContentTest) -> Result<bool, E>,
            X: Fn(&PathName) -> bool,
            T: Fn(&PathName) -> Result<bool, E>,
        requires
            forall|p: &PathName| is_repo.requires((p,)),
            forall|p: &PathName, t: ContentTest| file_matches.requires((p, t)),
            forall|p: &PathName| present.requires((p,)),
            forall|p: &PathName| try_exists.requires((p,)),
        ensures
            r matches Ok(root) ==> exists|repos: Set<Parts>, pairs: Set<(Parts, Seq<char>)>|
                directory_facts(*is_repo, *file_matches, *present, *try_exists, self.marker_texts(), self.workspace_texts(), dir@, repos, pairs)
                    && root@ == deepest_project(dir@, dir@.len() as int, repos, roots_of(pairs)),
            r matches Err(e) ==> resolve_fails(*is_repo, *file_matches, e) || probe_fails(*try_exists, e),
    {
        let ghost markers = self.marker_texts();
        let ghost files = self.workspace_texts();
        let ancestors = dir.ancestors();
        let ghost ancs = all_ancestors(dir@);
        let mut repos: Vec<PathName> = Vec::new();
        let mut cands: Vec<(PathName, String)> = Vec::new();
        let mut i: usize = 0;
        while i < ancestors.len()
            invariant
                i <= ancestors@.len() == ancs.len(),
                ancs == all_ancestors(dir@),
                markers == self.marker_texts(),
                files == self.workspace_texts(),
                forall|q: int| 0 <= q < ancestors@.len() ==> #[trigger] ancestors@[q]@ == ancs[q],
                forall|p: &PathName| is_repo.requires((p,)),
                forall|p: &PathName, t: ContentTest| file_matches.requires((p, t)),
                forall|p: &PathName| present.requires((p,)),
                forall|p: &PathName| try_exists.requires((p,)),
                forall|a: Parts| #[trigger] path_set(repos@).contains(a) ==> exists|q: int| 0 <= q < i && ancs[q] == a,
                forall|q: int| 0 <= q < i ==> probe_says(*is_repo, #[trigger] ancs[q], path_set(repos@).contains(ancs[q])),
                forall|c: Parts, m: Seq<char>| #[trigger] pair_set(cands@).contains((c, m)) ==> markers.contains(m) && exists|q: int|
                    0 <= q < i && probe_says(*try_exists, child(#[trigger] ancs[q], m), true)
                        && resolves_to(*is_repo, *file_matches, *present, files, ancs[q], m, c),
                forall|q: int, k: int| 0 <= q < i && 0 <= k < markers.len() ==> probe_says(*try_exists, child(#[trigger] ancs[q], #[trigger] markers[k]), false)
                    || exists|c: Parts| #[trigger] pair_set(cands@).contains((c, markers[k])) && resolves_to(*is_repo, *file_matches, *present, files, ancs[q], markers[k], c),
            decreases ancestors.len() - i,
        {
            let ancestor = &ancestors[i];
            let repo = match is_repo(ancestor) {
                Ok(v) => v,
                Err(e) => {
                    assert(probe_fails(*is_repo, e));
                    return Err(e);
                },
            };
            assert(probe_says(*is_repo, ancs[i as int], repo));
            let ghost repos_before = repos@;
            if repo {
                repos.push(ancestor.duplicate());
            }
            proof {
                assert forall|a: Parts| #[trigger] path_set(repos@).contains(a) <==> (path_set(repos_before).contains(a) || (repo && a == ancs[i as int])) by {
                    if repo {
                        lemma_path_set_push(repos_before, repos@.last(), a);
                        assert(repos@ == repos_before.push(repos@.last()));
                    }
                }
                assert forall|a: Parts| #[trigger] path_set(repos@).contains(a) implies exists|q: int| 0 <= q < i + 1 && ancs[q] == a by {
                    if path_set(repos_before).contains(a) {
                        let q = choose|q: int| 0 <= q < i && ancs[q] == a;
                    }
                }
                assert forall|q: int| 0 <= q < i + 1 implies probe_says(*is_repo, #[trigger] ancs[q], path_set(repos@).contains(ancs[q])) by {
                    if q < i {
                        assert(ancs[q].len() != ancs[i as int].len());
                    } else {
                        if !repo {
                            if path_set(repos_before).contains(ancs[q]) {
                                let q2 = choose|q2: int| 0 <= q2 < i && ancs[q2] == ancs[q];
                                assert(ancs[q2].len() != ancs[q].len());
                            }
                        }
                    }
                }
            }
            let mut k: usize = 0;
            while k < self.marker_files.len()
                invariant
                    i < ancestors@.len() == ancs.len(),
                    k <= self.marker_files@.len() == markers.len(),
                    ancs == all_ancestors(dir@),
                    markers == self.marker_texts(),
                    files == self.workspace_texts(),
                    ancestor@ == ancs[i as int],
                    forall|p: &PathName| is_repo.requires((p,)),
                    forall|p: &PathName, t: ContentTest| file_matches.requires((p, t)),
                    forall|p: &PathName| present.requires((p,)),
                    forall|p: &PathName| try_exists.requires((p,)),
                    forall|c: Parts, m: Seq<char>| #[trigger] pair_set(cands@).contains((c, m)) ==> markers.contains(m) && exists|q: int|
                        0 <= q < i + 1 && probe_says(*try_exists, child(#[trigger] ancs[q], m), true)
                            && resolves_to(*is_repo, *file_matches, *present, files, ancs[q], m, c),
                    forall|q: int, k2: int| 0 <= q < i && 0 <= k2 < markers.len() ==> probe_says(*try_exists, child(#[trigger] ancs[q], #[trigger] markers[k2]), false)
                        || exists|c: Parts| #[trigger] pair_set(cands@).contains((c, markers[k2])) && resolves_to(*is_repo, *file_matches, *present, files, ancs[q], markers[k2], c),
                    forall|k2: int| 0 <= k2 < k ==> probe_says(*try_exists, child(ancs[i as int], #[trigger] markers[k2]), false)
                        || exists|c: Parts| #[trigger] pair_set(cands@).contains((c, markers[k2])) && resolves_to(*is_repo, *file_matches, *present, files, ancs[i as int], markers[k2], c),
                decreases self.marker_files.len() - k,
            {
                let name = &self.marker_files[k];
                assert(markers[k as int] == name@);
                let marker = ancestor.join(&PathName::parse(name.as_str()));
                let here = match try_exists(&marker) {
                    Ok(v) => v,
                    Err(e) => {
                        assert(probe_fails(*try_exists, e));
                        return Err(e);
                    },
                };
                assert(probe_says(*try_exists, child(ancs[i as int], markers[k as int]), here));
                if here {
                    let root = match self.resolve(ancestor, name.as_str(), is_repo, file_matches, present) {
                        Ok(v) => v,
                        Err(e) => {
                            proof {
                                lemma_resolution_fails(*is_repo, *file_matches, ancestor@, name@, e);
                            }
                            return Err(e);
                        },
                    };
                    let ghost cands_before = cands@;
                    let ghost x = (root@, name@);
                    cands.push((root, name.clone()));
                    proof {
                        assert(cands@ == cands_before.push(cands@.last()));
                        assert forall|y: (Parts, Seq<char>)| #[trigger] pair_set(cands@).contains(y) <==> (pair_set(cands_before).contains(y) || y == x) by {
                            lemma_pair_set_push(cands_before, cands@.last(), y);
                        }
                        assert forall|y: (Parts, Seq<char>)| #[trigger] pair_set(cands_before).contains(y) implies pair_set(cands@).contains(y) by {
                            lemma_pair_set_push(cands_before, cands@.last(), y);
                        }
                        assert(pair_set(cands@).contains(x));
                        assert(resolves_to(*is_repo, *file_matches, *present, files, ancs[i as int], markers[k as int], x.0));
                        assert forall|c: Parts, m: Seq<char>| #[trigger] pair_set(cands@).contains((c, m)) implies markers.contains(m) && exists|q: int|
                            0 <= q < i + 1 && probe_says(*try_exists, child(#[trigger] ancs[q], m), true)
                                && resolves_to(*is_repo, *file_matches, *present, files, ancs[q], m, c) by {
                            if (c, m) == x {
                                assert(markers[k as int] == m);
                                assert(probe_says(*try_exists, child(ancs[i as int], m), true));
                            }
                        }
                    }
                }
                k = k + 1;
            }
            i = i + 1;
        }
        let ghost rs = path_set(repos@);
        let ghost ps = pair_set(cands@);
        assert(directory_facts(*is_repo, *file_matches, *present, *try_exists, markers, files, dir@, rs, ps)) by {
            assert forall|a: Parts| #[trigger] rs.contains(a) implies ancs.contains(a) by {
                let q = choose|q: int| 0 <= q < i && ancs[q] == a;
            }
        }
        let projects = assemble_projects(&repos, cands);
        let ghost cs = roots_of(ps);
        let n = dir.depth();
        let mut m: usize = n;
        loop
            invariant
                n == dir@.len(),
                m <= n,
                markers == self.marker_texts(),
                files == self.workspace_texts(),
                directory_facts(*is_repo, *file_matches, *present, *try_exists, markers, files, dir@, rs, ps),
                cs == roots_of(ps),
                forall|p: Parts| #[trigger] keys(projects@).contains(p) <==> is_project(p, rs, cs),
                deepest_project(dir@, n as int, rs, cs) == deepest_project(dir@, m as int, rs, cs),
            decreases m,
        {
            let candidate = prefix_of(dir, m);
            if project_position(&projects, &candidate).is_some() {
                assert(keys(projects@).contains(candidate@)) by {
                    crate::finder::lemma_keys_contains(projects@, candidate@);
                }
                assert(candidate@ == deepest_project(dir@, n as int, rs, cs));
                return Ok(candidate);
            }
            assert(!is_project(dir@.subrange(0, m as int), rs, cs));
            assert(deepest_project(dir@, m as int, rs, cs) == deepest_project(dir@, m - 1, rs, cs));
            if m == 0 {
                assert(deepest_project(dir@, -1, rs, cs) == dir@);
                return Ok(dir.duplicate());
            }
            m = m - 1;
        }
    }
}

} // verus!
