//! What the library asks of the filesystem, and how it reads the answers.
//!
//! The library never touches the filesystem itself: the caller hands it
//! probes, closures that answer one question about one path. The contracts
//! state what follows from the answers the probes gave.

use crate::path::{Parts, PathName};
use vstd::prelude::*;

verus! {

/// What kind of entry a path names.
#[derive(Debug, Clone, Copy, PartialEq, Eq, Structural)]
pub enum EntryKind {
    Directory,
    File,
    /// A socket, device, or anything else that is neither of the above.
    Other,
}

/// The probe `f` can answer `v` for the path `p`.
pub open spec fn probe_says<A, E, F: Fn(&PathName) -> Result<A, E>>(f: F, p: Parts, v: A) -> bool {
    exists|q: PathName| q@ == p && #[trigger] call_ensures(f, (&q,), Ok::<A, E>(v))
}

/// The probe `f` can fail with `e` when asked about the path `p`.
pub open spec fn fails_at<A, E, F: Fn(&PathName) -> Result<A, E>>(f: F, p: Parts, e: E) -> bool {
    exists|q: PathName| q@ == p && #[trigger] call_ensures(f, (&q,), Err::<A, E>(e))
}

/// The probe `f` can fail with `e` when asked about some path.
pub open spec fn probe_fails<A, E, F: Fn(&PathName) -> Result<A, E>>(f: F, e: E) -> bool {
    exists|q: PathName| #[trigger] call_ensures(f, (&q,), Err::<A, E>(e))
}

/// The text probe `f` can answer `v` for the file `p`: its contents, or
/// nothing when it is missing or not text.
pub open spec fn text_says<E, F: Fn(&PathName) -> Result<Option<String>, E>>(f: F, p: Parts, v: Option<Seq<char>>) -> bool {
    exists|q: PathName, s: Option<String>|
        q@ == p && #[trigger] call_ensures(f, (&q,), Ok::<Option<String>, E>(s)) && match s {
            Some(t) => v == Some(t@),
            None => v is None,
        }
}

/// Reports whether `path` is a directory, given what `entry_kind` says it
/// names. A missing path is not. A failure of the probe is the error.
pub fn is_dir<E, K>(path: &PathName, entry_kind: &K) -> (r: Result<bool, E>)
    where
        K: Fn(&PathName) -> Result<Option<EntryKind>, E>,
    requires
        forall|p: &PathName| entry_kind.requires((p,)),
    ensures
        r matches Ok(v) ==> exists|k: Option<EntryKind>| probe_says(*entry_kind, path@, k) && v == (k == Some(EntryKind::Directory)),
        r matches Err(e) ==> fails_at(*entry_kind, path@, e),
{
    match entry_kind(path) {
        Ok(k) => {
            let v = match k {
                Some(EntryKind::Directory) => true,
                _ => false,
            };
            assert(probe_says(*entry_kind, path@, k));
            Ok(v)
        },
        Err(e) => {
            assert(fails_at(*entry_kind, path@, e));
            Err(e)
        },
    }
}

} // verus!
