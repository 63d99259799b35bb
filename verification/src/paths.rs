//! Where the program keeps its own files, and how paths are shown to a user.
//!
//! Reading the environment is the caller's business: these functions take
//! the values of `HOME` and the XDG variables as plain strings.

use crate::path::{components, joined_with, under, Parts, PathName};
use crate::text::same_text;
use vstd::prelude::*;

verus! {

/// The directory the program owns inside a base directory.
pub const APP_DIR: &'static str = "mekle";

/// The component a leading `~` becomes.
pub open spec fn tilde() -> Seq<char> {
    seq!['~']
}

/// The components of an optional path.
pub open spec fn parts_of(p: Option<&PathName>) -> Option<Parts> {
    match p {
        Some(q) => Some(q@),
        None => None,
    }
}

/// `path` with a leading `~` component replaced by `home`, when there is a
/// home; otherwise `path` itself. A name such as `~user` is no `~` component.
pub open spec fn expanded(path: Parts, home: Option<Parts>) -> Parts {
    if home is Some && path.len() > 0 && path[0] == tilde() {
        joined_with(home->0, path.drop_first())
    } else {
        path
    }
}

/// `path` shortened to a leading `~` when it lies under `home`: home itself
/// becomes a bare `~`; any other path is left as it is.
pub open spec fn contracted(path: Parts, home: Option<Parts>) -> Parts {
    if home is Some && under(path, home->0) {
        let rest = path.subrange(home->0.len() as int, path.len() as int);
        if rest.len() == 0 {
            seq![tilde()]
        } else {
            joined_with(seq![tilde()], rest)
        }
    } else {
        path
    }
}

/// A path with a single `~` component.
fn tilde_path() -> (r: PathName)
    ensures
        r@ == seq![tilde()],
{
    let name = "~".to_owned();
    let mut parts: Vec<String> = Vec::new();
    parts.push(name);
    proof {
        reveal_strlit("~");
        assert(parts@[0]@ == tilde());
        assert(crate::path::texts(parts@) =~= seq![tilde()]);
    }
    PathName { parts }
}

/// Replaces a leading `~` with `home`.
///
/// `~user` is left alone: only a shell knows how to resolve it.
pub fn expand_tilde(path: &PathName, home: Option<&PathName>) -> (r: PathName)
    ensures
        r@ == expanded(path@, parts_of(home)),
{
    let leads = if path.parts.len() > 0 {
        same_text(path.parts[0].as_str(), "~")
    } else {
        false
    };
    proof {
        reveal_strlit("~");
        assert("~"@ =~= tilde());
        if path@.len() > 0 {
            assert(path@[0] == path.parts@[0]@);
        }
    }
    assert(leads == (path@.len() > 0 && path@[0] == tilde()));
    match home {
        Some(h) => {
            if leads {
                let marker = tilde_path();
                let rest = match path.strip_prefix(&marker) {
                    Some(rest) => rest,
                    None => {
                        assert(under(path@, marker@)) by {
                            assert(path@.subrange(0, 1) =~= marker@);
                        }
                        return path.duplicate();
                    },
                };
                assert(rest@ =~= path@.drop_first());
                h.join(&rest)
            } else {
                path.duplicate()
            }
        },
        None => path.duplicate(),
    }
}

/// Shortens a path under `home` to a leading `~`, undoing [`expand_tilde`].
pub fn contract_tilde(path: &PathName, home: Option<&PathName>) -> (r: PathName)
    ensures
        r@ == contracted(path@, parts_of(home)),
{
    let h = match home {
        Some(h) => h,
        None => return path.duplicate(),
    };
    let rest = match path.strip_prefix(h) {
        Some(rest) => rest,
        None => return path.duplicate(),
    };
    if rest.is_empty() {
        return tilde_path();
    }
    tilde_path().join(&rest)
}

/// Expanding a path that starts with `~`, or that does not lie under home,
/// and contracting the result gives the path back.
pub proof fn lemma_contract_undoes_expand(path: Parts, home: Option<Parts>)
    requires
        crate::path::wf_parts(path),
        home is Some ==> (path.len() > 0 && path[0] == tilde()) || !under(path, home->0),
    ensures
        contracted(expanded(path, home), home) == path,
{
    if home is Some && path.len() > 0 && path[0] == tilde() {
        let h = home->0;
        let rest = path.drop_first();
        if rest.len() > 0 {
            assert(path[1] != crate::path::root_part());
            assert(rest[0] == path[1]);
        }
        let e = expanded(path, home);
        assert(e == h + rest);
        assert(h.is_prefix_of(e)) by {
            assert(e.subrange(0, h.len() as int) =~= h);
        }
        assert(e.subrange(h.len() as int, e.len() as int) =~= rest);
        if rest.len() == 0 {
            assert(path =~= seq![tilde()]);
        } else {
            assert(seq![tilde()] + rest =~= path);
        }
    }
}

/// For any path written as text: expanding a leading `~` and contracting the
/// result gives the path back, when the path starts with `~` or does not lie
/// under home.
pub proof fn lemma_contract_undoes_expand_text(text: Seq<char>, home: Option<Parts>)
    requires
        home is Some ==> (components(text).len() > 0 && components(text)[0] == tilde()) || !under(components(text), home->0),
    ensures
        contracted(expanded(components(text), home), home) == components(text),
{
    crate::path::lemma_components_wf(text);
    lemma_contract_undoes_expand(components(text), home);
}

/// The non-empty value of a variable, as a path.
fn non_empty(value: Option<String>) -> (r: Option<PathName>)
    ensures
        r matches Some(p) ==> value is Some && value->0@.len() > 0 && p@ == components(value->0@),
        r is None ==> value is None || value->0@.len() == 0,
{
    match value {
        Some(v) => {
            if v.as_str().is_empty() {
                None
            } else {
                Some(PathName::parse(v.as_str()))
            }
        },
        None => None,
    }
}

/// The directory one of the program's files lives in: the non-empty
/// `xdg_base`, else `home_relative` under the non-empty `home`.
pub open spec fn base_dir(xdg_base: Option<Seq<char>>, home: Option<Seq<char>>, home_relative: Seq<char>) -> Option<Parts> {
    if xdg_base is Some && xdg_base->0.len() > 0 {
        Some(components(xdg_base->0))
    } else if home is Some && home->0.len() > 0 {
        Some(joined_with(components(home->0), components(home_relative)))
    } else {
        None
    }
}

/// The text of an optional string.
pub open spec fn text_of(s: Option<String>) -> Option<Seq<char>> {
    match s {
        Some(t) => Some(t@),
        None => None,
    }
}

/// The path of `file` in the program's directory under `base`.
pub open spec fn app_path(base: Parts, file: Seq<char>) -> Parts {
    joined_with(joined_with(base, components(APP_DIR@)), components(file))
}

/// Resolves one of the program's files under `xdg_base`, falling back to
/// `home/home_relative`; nothing when neither variable is set and non-empty.
pub fn app_file(xdg_base: Option<String>, home: Option<String>, home_relative: &str, file: &str) -> (r: Option<PathName>)
    ensures
        r is Some <==> base_dir(text_of(xdg_base), text_of(home), home_relative@) is Some,
        r matches Some(p) ==> p@ == app_path(base_dir(text_of(xdg_base), text_of(home), home_relative@)->0, file@),
{
    let ghost want = base_dir(text_of(xdg_base), text_of(home), home_relative@);
    let base = match non_empty(xdg_base) {
        Some(b) => b,
        None => match non_empty(home) {
            Some(h) => h.join(&PathName::parse(home_relative)),
            None => return None,
        },
    };
    assert(want == Some(base@));
    let dir = base.join(&PathName::parse(APP_DIR));
    Some(dir.join(&PathName::parse(file)))
}

/// The configuration file's location, given `XDG_CONFIG_HOME` and `HOME`.
pub fn config_file_in(xdg_config_home: Option<String>, home: Option<String>) -> (r: Option<PathName>)
    ensures
        r is Some <==> base_dir(text_of(xdg_config_home), text_of(home), ".config"@) is Some,
        r matches Some(p) ==> p@ == app_path(base_dir(text_of(xdg_config_home), text_of(home), ".config"@)->0, "config.toml"@),
{
    app_file(xdg_config_home, home, ".config", "config.toml")
}

/// The history file's location, given `XDG_DATA_HOME` and `HOME`.
pub fn history_file_in(xdg_data_home: Option<String>, home: Option<String>) -> (r: Option<PathName>)
    ensures
        r is Some <==> base_dir(text_of(xdg_data_home), text_of(home), ".local/share"@) is Some,
        r matches Some(p) ==> p@ == app_path(base_dir(text_of(xdg_data_home), text_of(home), ".local/share"@)->0, "history.toml"@),
{
    app_file(xdg_data_home, home, ".local/share", "history.toml")
}

/// The user's home directory, given the value of `HOME`: nothing when it is
/// unset or empty.
pub fn home_from(home: Option<String>) -> (r: Option<PathName>)
    ensures
        r is Some <==> (home is Some && home->0@.len() > 0),
        r matches Some(p) ==> p@ == components(home->0@),
{
    non_empty(home)
}

} // verus!
