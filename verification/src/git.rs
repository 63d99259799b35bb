//! What marks a repository root.
//!
//! A `.git` directory always marks one. A `.git` file marks one only when it
//! is a Git redirection file, as worktrees and some submodules use: a lone
//! `gitdir: <PATH>` entry naming an existing directory. A relative `<PATH>`
//! resolves against the directory holding the file.

use crate::fs::{fails_at, probe_says, text_says, EntryKind};
use crate::path::{components, is_root_text, joined_with, parent_of, root_part, Parts, PathName};
use crate::text::{chars_of, line_spans, lines, range_starts_with, starts_with, trim, trim_range};
use vstd::prelude::*;

verus! {

/// The entry Git places at the root of every repository.
pub const GIT_DIR: &'static str = ".git";

/// What a redirection file's entry starts with.
pub const GITDIR_PREFIX: &'static str = "gitdir:";

/// The characters of [`GITDIR_PREFIX`].
pub open spec fn gitdir_prefix() -> Seq<char> {
    seq!['g', 'i', 't', 'd', 'i', 'r', ':']
}

/// The target of a `gitdir:` entry that stands alone in `s`: the first line
/// starts with `gitdir:`, what follows it is not blank once trimmed, and
/// every later line is blank.
pub open spec fn link_target_of(s: Seq<char>) -> Option<Seq<char>> {
    let ls = lines(s);
    if ls.len() == 0 || !starts_with(ls[0], gitdir_prefix()) {
        None
    } else {
        let t = trim(ls[0].subrange(gitdir_prefix().len() as int, ls[0].len() as int));
        if t.len() == 0 || exists|k: int| 1 <= k < ls.len() && trim(#[trigger] ls[k]).len() > 0 {
            None
        } else {
            Some(t)
        }
    }
}

/// The text of an optional string.
pub open spec fn option_text(s: Option<String>) -> Option<Seq<char>> {
    match s {
        Some(t) => Some(t@),
        None => None,
    }
}

/// Extracts the target of a `gitdir:` entry that stands alone in `contents`.
pub fn link_target(contents: &str) -> (r: Option<String>)
    ensures
        option_text(r) == link_target_of(contents@),
{
    let s = chars_of(contents);
    let spans = line_spans(&s);
    let ghost ls = lines(s@);
    if spans.len() == 0 {
        return None;
    }
    let (lo, hi) = spans[0];
    assert(s@.subrange(lo as int, hi as int) == ls[0]);
    let prefix = chars_of(GITDIR_PREFIX);
    proof {
        reveal_strlit("gitdir:");
        assert(prefix@ =~= gitdir_prefix());
    }
    if !range_starts_with(&s, lo, hi, &prefix) {
        return None;
    }
    let start = lo + prefix.len();
    let (a, b) = trim_range(&s, start, hi);
    assert(s@.subrange(start as int, hi as int) =~= ls[0].subrange(gitdir_prefix().len() as int, ls[0].len() as int));
    if a == b {
        return None;
    }
    let mut k: usize = 1;
    while k < spans.len()
        invariant
            1 <= k <= spans@.len() == ls.len(),
            ls == lines(s@),
            s@ == contents@,
            forall|m: int| #![trigger spans@[m]] 0 <= m < spans@.len() ==> spans@[m].0 <= spans@[m].1 <= s@.len()
                && s@.subrange(spans@[m].0 as int, spans@[m].1 as int) == ls[m],
            forall|m: int| 1 <= m < k ==> trim(#[trigger] ls[m]).len() == 0,
        decreases spans.len() - k,
    {
        let (l2, h2) = spans[k];
        let (a2, b2) = trim_range(&s, l2, h2);
        assert(s@.subrange(l2 as int, h2 as int) == ls[k as int]);
        if a2 != b2 {
            assert(trim(ls[k as int]).len() > 0);
            return None;
        }
        k = k + 1;
    }
    Some(crate::path::string_of_range(&s, a, b))
}

/// Where the target `target` of the redirection file `git_file` points: an
/// absolute target as it is, a relative one below the file's directory.
pub open spec fn resolved_target(git_file: Parts, target: Seq<char>) -> Option<Parts> {
    let t = components(target);
    if t.len() > 0 && t[0] == root_part() {
        Some(t)
    } else {
        match parent_of(git_file) {
            Some(p) => Some(joined_with(p, t)),
            None => None,
        }
    }
}

/// Resolves `target` against the directory holding `git_file`.
fn resolve(git_file: &PathName, target: &str) -> (r: Option<PathName>)
    ensures
        match resolved_target(git_file@, target@) {
            Some(t) => r matches Some(p) && p@ == t,
            None => r is None,
        },
{
    let t = PathName::parse(target);
    if t.parts.len() > 0 && is_root_text(&t.parts[0]) {
        return Some(t);
    }
    assert(!(t@.len() > 0 && t@[0] == root_part()));
    match git_file.parent() {
        Some(p) => Some(p.join(&t)),
        None => None,
    }
}

/// The directory the redirection file `git_file` with `contents` points to,
/// if it is one.
pub open spec fn redirect_of(git_file: Parts, contents: Seq<char>) -> Option<Parts> {
    match link_target_of(contents) {
        Some(t) => resolved_target(git_file, t),
        None => None,
    }
}

/// The directory the redirection file `git_file` with `contents` points to.
pub fn redirect_target(git_file: &PathName, contents: &str) -> (r: Option<PathName>)
    ensures
        match redirect_of(git_file@, contents@) {
            Some(t) => r matches Some(p) && p@ == t,
            None => r is None,
        },
{
    match link_target(contents) {
        Some(t) => resolve(git_file, t.as_str()),
        None => None,
    }
}

/// What the probes can say about whether `git_path`, a path named `.git`,
/// marks a repository (`v`): a directory does; a file does when it redirects
/// to a directory; nothing else does.
pub open spec fn marks_says<
    E,
    K: Fn(&PathName) -> Result<Option<EntryKind>, E>,
    R: Fn(&PathName) -> Result<Option<String>, E>,
    D: Fn(&PathName) -> Result<bool, E>,
>(entry_kind: K, read_text: R, is_dir: D, git_path: Parts, v: bool) -> bool {
    ||| probe_says(entry_kind, git_path, Some(EntryKind::Directory)) && v
    ||| probe_says(entry_kind, git_path, Some(EntryKind::File)) && (
        (text_says(read_text, git_path, None) && !v) || exists|c: Seq<char>|
            #[trigger] text_says(read_text, git_path, Some(c)) && match redirect_of(git_path, c) {
                Some(t) => probe_says(is_dir, t, v),
                None => !v,
            })
    ||| (probe_says(entry_kind, git_path, Some(EntryKind::Other)) || probe_says(entry_kind, git_path, None::<EntryKind>)) && !v
}

/// How the probes can fail while asked whether `git_path` marks a
/// repository (with `e`): the kind of entry is unknown; it is a file that
/// cannot be read; or it redirects to a path whose kind is unknown.
pub open spec fn marks_fails<
    E,
    K: Fn(&PathName) -> Result<Option<EntryKind>, E>,
    R: Fn(&PathName) -> Result<Option<String>, E>,
    D: Fn(&PathName) -> Result<bool, E>,
>(entry_kind: K, read_text: R, is_dir: D, git_path: Parts, e: E) -> bool {
    ||| fails_at(entry_kind, git_path, e)
    ||| probe_says(entry_kind, git_path, Some(EntryKind::File)) && (fails_at(read_text, git_path, e) || exists|c: Seq<char>|
        #[trigger] text_says(read_text, git_path, Some(c)) && match redirect_of(git_path, c) {
            Some(t) => fails_at(is_dir, t, e),
            None => false,
        })
}

/// Reports whether `git_path`, a path named `.git`, marks a repository root;
/// a failure of a probe is the error.
pub fn marks_repository<E, K, R, D>(git_path: &PathName, entry_kind: &K, read_text: &R, is_dir: &D) -> (r: Result<bool, E>)
    where
        K: Fn(&PathName) -> Result<Option<EntryKind>, E>,
        R: Fn(&PathName) -> Result<Option<String>, E>,
        D: Fn(&PathName) -> Result<bool, E>,
    requires
        forall|p: &PathName| entry_kind.requires((p,)),
        forall|p: &PathName| read_text.requires((p,)),
        forall|p: &PathName| is_dir.requires((p,)),
    ensures
        r matches Ok(v) ==> marks_says(*entry_kind, *read_text, *is_dir, git_path@, v),
        r matches Err(e) ==> marks_fails(*entry_kind, *read_text, *is_dir, git_path@, e),
{
    let kind = match entry_kind(git_path) {
        Ok(k) => k,
        Err(e) => {
            assert(fails_at(*entry_kind, git_path@, e));
            return Err(e);
        },
    };
    assert(probe_says(*entry_kind, git_path@, kind));
    match kind {
        Some(EntryKind::Directory) => Ok(true),
        Some(EntryKind::File) => {
            let text = match read_text(git_path) {
                Ok(t) => t,
                Err(e) => {
                    assert(fails_at(*read_text, git_path@, e));
                    return Err(e);
                },
            };
            match text {
                None => {
                    assert(text_says(*read_text, git_path@, None));
                    Ok(false)
                },
                Some(contents) => {
                    assert(text_says(*read_text, git_path@, Some(contents@)));
                    match redirect_target(git_path, contents.as_str()) {
                        None => Ok(false),
                        Some(target) => {
                            let answer = is_dir(&target);
                            match answer {
                                Ok(v) => {
                                    assert(probe_says(*is_dir, target@, v));
                                    Ok(v)
                                },
                                Err(e) => {
                                    assert(fails_at(*is_dir, target@, e));
                                    Err(e)
                                },
                            }
                        },
                    }
                },
            }
        },
        _ => Ok(false),
    }
}

} // verus!
