//! Locating the `fd` program, for searches that hand the walk to it.
//!
//! Searching the program path is the caller's business: the lookup is handed
//! in as a closure from a program name to where that program lives, as text.

use crate::error::Error;
use crate::path::{components, PathName};
use vstd::prelude::*;

verus! {

/// The names `fd` goes by, in the order they are looked for.
pub const FD_BINARIES: [&'static str; 2] = ["fd", "fdfind"];

/// What the missing dependency is called in an error.
pub const FD_NAME: &'static str = "fd (or fdfind)";

/// Where the missing dependency can be had.
pub const FD_URL: &'static str = "https://github.com/sharkdp/fd";

/// Where the `fd` program lives.
#[derive(Debug)]
pub struct Dependencies {
    pub fd_path: PathName,
}

/// The lookup `lookup` can answer `v` for the program named `name`: where it
/// lives, as text, or nothing when it is not installed.
pub open spec fn lookup_says<L: Fn(&str) -> Option<String>>(lookup: L, name: Seq<char>, v: Option<Seq<char>>) -> bool {
    exists|q: &str, s: Option<String>|
        q@ == name && #[trigger] call_ensures(lookup, (q,), s) && match s {
            Some(t) => v == Some(t@),
            None => v is None,
        }
}

impl Dependencies {
    /// Dependencies with `fd` at `fd_path`.
    pub fn new(fd_path: PathName) -> (r: Dependencies)
        ensures
            r.fd_path@ == fd_path@,
    {
        Dependencies { fd_path }
    }

    /// Looks each of [`FD_BINARIES`] up with `lookup`, in order, and keeps
    /// the first program found; an error naming what is missing when neither
    /// is.
    pub fn check<L>(lookup: &L) -> (r: Result<Dependencies, Error>)
        where
            L: Fn(&str) -> Option<String>,
        requires
            forall|name: &str| lookup.requires((name,)),
        ensures
            r matches Ok(d) ==> exists|t: Seq<char>| d.fd_path@ == #[trigger] components(t) && (lookup_says(*lookup, FD_BINARIES@[0]@, Some(t))
                || (lookup_says(*lookup, FD_BINARIES@[0]@, None) && lookup_says(*lookup, FD_BINARIES@[1]@, Some(t)))),
            r matches Err(e) ==> lookup_says(*lookup, FD_BINARIES@[0]@, None) && lookup_says(*lookup, FD_BINARIES@[1]@, None)
                && (e matches Error::DependencyNotFound { name, url } && name@ == FD_NAME@ && url@ == FD_URL@),
    {
        let first = FD_BINARIES[0];
        let found = lookup(first);
        match found {
            Some(p) => {
                assert(lookup_says(*lookup, FD_BINARIES@[0]@, Some(p@)));
                return Ok(Dependencies::new(PathName::parse(p.as_str())));
            },
            None => {},
        }
        assert(lookup_says(*lookup, FD_BINARIES@[0]@, None));
        let second = FD_BINARIES[1];
        let found = lookup(second);
        match found {
            Some(p) => {
                assert(lookup_says(*lookup, FD_BINARIES@[1]@, Some(p@)));
                Ok(Dependencies::new(PathName::parse(p.as_str())))
            },
            None => {
                assert(lookup_says(*lookup, FD_BINARIES@[1]@, None));
                Err(Error::DependencyNotFound { name: FD_NAME.to_owned(), url: FD_URL.to_owned() })
            },
        }
    }
}

} // verus!
