//! Turning what a walk found into the list of projects.
//!
//! Repositories are projects outright. Every other marker has first been
//! resolved to a root, and that root becomes a project unless a project two or
//! more levels above it already accounts for it. A direct child of a project
//! is still a project of its own: that keeps the members of a monorepo visible
//! while their `src` directories stay hidden.

use crate::order::{text_less, chars_lt, lemma_chars_lt_asymmetric, lemma_chars_lt_irreflexive, lemma_chars_lt_total, lemma_chars_lt_transitive, path_lt};
use crate::path::{is_root_text, root_part, texts, Parts, PathName};
use crate::sort::{in_order, sort_items, Ordered};
use crate::text::chars_of;
use crate::config::{path_views, Config};
use crate::content::ContentTest;
use crate::error::Error;
use crate::path::parent_of;
use crate::root::{presence_says, resolution_fails, resolves_to, RootResolver};
use crate::scan::DirectoryScan;
use vstd::prelude::*;

verus! {

/// A directory worth reporting, and the markers that identified it.
#[derive(Debug)]
pub struct Project {
    pub path: PathName,
    pub markers: Vec<String>,
}

/// The shortest ancestor of `c` that `Path::ancestors` reaches: the root for
/// an absolute path, the empty path for a relative one.
pub open spec fn lowest_ancestor(c: Parts) -> int {
    if c.len() > 0 && c[0] == root_part() {
        1
    } else {
        0
    }
}

/// The ancestor of `c` that keeps `n` components is two or more levels above
/// `c`, and so could absorb it.
pub open spec fn covers_at(c: Parts, n: int) -> bool {
    lowest_ancestor(c) <= n <= c.len() - 2
}

/// One of `known` already accounts for `c`: it is `c` itself, or an ancestor
/// two or more levels above it.
pub open spec fn covered(c: Parts, known: Set<Parts>) -> bool {
    known.contains(c) || exists|n: int| covers_at(c, n) && known.contains(#[trigger] c.subrange(0, n))
}

/// The views of some paths, as a set.
pub open spec fn path_set(v: Seq<PathName>) -> Set<Parts> {
    v.map_values(|p: PathName| p@).to_set()
}

/// The ancestor of `c` that keeps its first `n` components.
pub fn prefix_of(c: &PathName, n: usize) -> (r: PathName)
    requires
        n <= c@.len(),
    ensures
        r@ == c@.subrange(0, n as int),
{
    let mut parts: Vec<String> = Vec::new();
    let mut k: usize = 0;
    while k < n
        invariant
            k <= n <= c@.len(),
            texts(parts@) == c@.subrange(0, k as int),
        decreases n - k,
    {
        let ghost before = parts@;
        parts.push(c.parts[k].clone());
        assert(texts(parts@) =~= texts(before).push(c@[k as int]));
        assert(c@.subrange(0, k + 1) =~= c@.subrange(0, k as int).push(c@[k as int]));
        k = k + 1;
    }
    PathName { parts }
}

/// The index of a path in `known` with the same components as `p`.
pub fn position_in(p: &PathName, known: &[PathName]) -> (r: Option<usize>)
    ensures
        r matches Some(k) ==> k < known@.len() && known@[k as int]@ == p@,
        r is None ==> forall|k: int| 0 <= k < known@.len() ==> known@[k]@ != p@,
{
    let mut k: usize = 0;
    while k < known.len()
        invariant
            k <= known@.len(),
            forall|m: int| 0 <= m < k ==> known@[m]@ != p@,
        decreases known.len() - k,
    {
        if known[k].same_as(p) {
            return Some(k);
        }
        k = k + 1;
    }
    None
}

pub proof fn lemma_path_set_contains(v: Seq<PathName>, p: Parts)
    ensures
        path_set(v).contains(p) <==> exists|k: int| 0 <= k < v.len() && #[trigger] v[k]@ == p,
{
    let s = v.map_values(|q: PathName| q@);
    if path_set(v).contains(p) {
        assert(s.contains(p));
        let k = choose|k: int| 0 <= k < s.len() && s[k] == p;
        assert(v[k]@ == p);
    }
    if exists|k: int| 0 <= k < v.len() && #[trigger] v[k]@ == p {
        let k = choose|k: int| 0 <= k < v.len() && #[trigger] v[k]@ == p;
        assert(s[k] == p);
        assert(s.contains(p));
    }
}

/// Adding a path to a list adds its view to the list's set.
pub proof fn lemma_path_set_push(v: Seq<PathName>, p: PathName, a: Parts)
    ensures
        path_set(v.push(p)).contains(a) <==> (path_set(v).contains(a) || a == p@),
{
    lemma_path_set_contains(v, a);
    lemma_path_set_contains(v.push(p), a);
    if path_set(v.push(p)).contains(a) && a != p@ {
        let k = choose|k: int| 0 <= k < v.push(p).len() && #[trigger] v.push(p)[k]@ == a;
        assert(v[k]@ == a);
    }
    if path_set(v).contains(a) {
        let k = choose|k: int| 0 <= k < v.len() && #[trigger] v[k]@ == a;
        assert(v.push(p)[k]@ == a);
    }
    if a == p@ {
        assert(v.push(p)[v.len() as int]@ == a);
    }
}

/// Which (root, marker) pairs a list holds.
pub proof fn lemma_pair_set_contains(v: Seq<(PathName, String)>, x: (Parts, Seq<char>))
    ensures
        pair_set(v).contains(x) <==> exists|k: int| 0 <= k < v.len() && (#[trigger] v[k].0@, v[k].1@) == x,
{
    let s = v.map_values(|y: (PathName, String)| (y.0@, y.1@));
    if pair_set(v).contains(x) {
        assert(s.contains(x));
        let k = choose|k: int| 0 <= k < s.len() && s[k] == x;
        assert((v[k].0@, v[k].1@) == x);
    }
    if exists|k: int| 0 <= k < v.len() && (#[trigger] v[k].0@, v[k].1@) == x {
        let k = choose|k: int| 0 <= k < v.len() && (#[trigger] v[k].0@, v[k].1@) == x;
        assert(s[k] == x);
        assert(s.contains(x));
    }
}

/// Adding a pair to a list adds its view to the list's set.
pub proof fn lemma_pair_set_push(v: Seq<(PathName, String)>, y: (PathName, String), x: (Parts, Seq<char>))
    ensures
        pair_set(v.push(y)).contains(x) <==> (pair_set(v).contains(x) || x == (y.0@, y.1@)),
{
    lemma_pair_set_contains(v, x);
    lemma_pair_set_contains(v.push(y), x);
    if pair_set(v.push(y)).contains(x) && x != (y.0@, y.1@) {
        let k = choose|k: int| 0 <= k < v.push(y).len() && (#[trigger] v.push(y)[k].0@, v.push(y)[k].1@) == x;
        assert((v[k].0@, v[k].1@) == x);
    }
    if pair_set(v).contains(x) {
        let k = choose|k: int| 0 <= k < v.len() && (#[trigger] v[k].0@, v[k].1@) == x;
        assert((v.push(y)[k].0@, v.push(y)[k].1@) == x);
    }
    if x == (y.0@, y.1@) {
        assert((v.push(y)[v.len() as int].0@, v.push(y)[v.len() as int].1@) == x);
    }
}

/// Reports whether one of the `known` projects already accounts for
/// `candidate`.
#[verifier::spinoff_prover]
pub fn is_covered(candidate: &PathName, known: &[PathName]) -> (r: bool)
    ensures
        r == covered(candidate@, path_set(known@)),
{
    proof {
        lemma_path_set_contains(known@, candidate@);
    }
    if position_in(candidate, known).is_some() {
        return true;
    }
    let len = candidate.depth();
    if len < 2 {
        assert(!exists|n: int| covers_at(candidate@, n) && path_set(known@).contains(#[trigger] candidate@.subrange(0, n)));
        return false;
    }
    let lowest: usize = if is_root_text(&candidate.parts[0]) { 1 } else { 0 };
    let mut n: usize = len - 2;
    loop
        invariant
            2 <= len == candidate@.len(),
            lowest as int == lowest_ancestor(candidate@),
            n <= len - 2,
            !path_set(known@).contains(candidate@),
            forall|m: int| n < m <= len - 2 ==> !path_set(known@).contains(#[trigger] candidate@.subrange(0, m)),
        decreases n,
    {
        if n < lowest {
            assert forall|m: int| covers_at(candidate@, m) implies !path_set(known@).contains(#[trigger] candidate@.subrange(0, m)) by {}
            return false;
        }
        let ancestor = prefix_of(candidate, n);
        proof {
            lemma_path_set_contains(known@, ancestor@);
        }
        if position_in(&ancestor, known).is_some() {
            assert(covers_at(candidate@, n as int));
            assert(path_set(known@).contains(candidate@.subrange(0, n as int)));
            return true;
        }
        if n == 0 {
            assert forall|m: int| covers_at(candidate@, m) implies !path_set(known@).contains(#[trigger] candidate@.subrange(0, m)) by {}
            return false;
        }
        n = n - 1;
    }
}

/// Each text comes strictly before the next, so none occurs twice.
pub open spec fn ascending(s: Parts) -> bool {
    forall|i: int, j: int| 0 <= i < j < s.len() ==> chars_lt(#[trigger] s[i], #[trigger] s[j])
}

/// Adds `m` to the ascending names in `markers`, unless it is already there.
#[verifier::spinoff_prover]
pub fn insert_marker(markers: &mut Vec<String>, m: &String)
    requires
        ascending(texts(old(markers)@)),
    ensures
        ascending(texts(final(markers)@)),
        texts(final(markers)@).to_set() == texts(old(markers)@).to_set().insert(m@),
{
    let ghost old_t = texts(markers@);
    let mut p: usize = 0;
    while p < markers.len() && text_less(&markers[p], m)
        invariant
            p <= markers@.len(),
            texts(markers@) == old_t,
            forall|k: int| 0 <= k < p ==> chars_lt(old_t[k], m@),
        decreases markers.len() - p,
    {
        p = p + 1;
    }
    if p < markers.len() && markers[p] == *m {
        assert(old_t[p as int] == m@);
        assert(old_t.to_set() =~= old_t.to_set().insert(m@)) by {
            assert(old_t.contains(m@));
        }
        return;
    }
    proof {
        if p < old_t.len() {
            lemma_chars_lt_total(old_t[p as int], m@);
            assert(chars_lt(m@, old_t[p as int]));
        }
    }
    markers.insert(p, m.clone());
    proof {
        let t = texts(markers@);
        assert(t =~= old_t.insert(p as int, m@));
        assert forall|i: int, j: int| 0 <= i < j < t.len() implies chars_lt(#[trigger] t[i], #[trigger] t[j]) by {
            if j < p {
            } else if j == p {
                assert(chars_lt(old_t[i], m@));
            } else if i == p {
                if j - 1 > p {
                    lemma_chars_lt_transitive(m@, old_t[p as int], old_t[j - 1]);
                }
            } else if i < p {
                lemma_chars_lt_transitive(old_t[i], m@, old_t[j - 1]);
                if j - 1 > p {
                } else {
                    lemma_chars_lt_transitive(old_t[i], m@, old_t[p as int]);
                }
            } else {
            }
        }
        assert forall|x: Seq<char>| t.to_set().contains(x) <==> old_t.to_set().insert(m@).contains(x) by {
            if t.contains(x) {
                let k = choose|k: int| 0 <= k < t.len() && t[k] == x;
                if k < p {
                    assert(old_t[k] == x);
                } else if k > p {
                    assert(old_t[k - 1] == x);
                }
            }
            if old_t.contains(x) {
                let k = choose|k: int| 0 <= k < old_t.len() && old_t[k] == x;
                if k < p {
                    assert(t[k] == x);
                } else {
                    assert(t[k + 1] == x);
                }
            }
            if x == m@ {
                assert(t[p as int] == x);
            }
        }
        assert(t.to_set() =~= old_t.to_set().insert(m@));
    }
}

/// The entry `.git`, which marks every repository.
pub open spec fn git_dir() -> Seq<char> {
    seq!['.', 'g', 'i', 't']
}

/// `p` is a project, given the repository roots `repos` and the roots the
/// markers resolved to, `cands`: a repository, or a marker root that no
/// project two or more levels above it absorbs.
pub open spec fn is_project(p: Parts, repos: Set<Parts>, cands: Set<Parts>) -> bool
    decreases p.len(), 1int, 0int,
{
    repos.contains(p) || (cands.contains(p) && landing_len(p, p.len() - 2, repos, cands) < 0)
}

/// How many components the nearest project keeps among the ancestors of `p`
/// that keep at most `n` components and lie two or more levels above `p`;
/// -1 when there is none.
pub open spec fn landing_len(p: Parts, n: int, repos: Set<Parts>, cands: Set<Parts>) -> int
    decreases p.len(), 0int, n + 1,
{
    if n < lowest_ancestor(p) || n > p.len() - 2 {
        -1
    } else if is_project(p.subrange(0, n), repos, cands) {
        n
    } else {
        landing_len(p, n - 1, repos, cands)
    }
}

/// The project a marker root `c` is reported under: the nearest project two
/// or more levels above it, or `c` itself.
pub open spec fn landing(c: Parts, repos: Set<Parts>, cands: Set<Parts>) -> Parts {
    let n = landing_len(c, c.len() - 2, repos, cands);
    if n >= 0 {
        c.subrange(0, n)
    } else {
        c
    }
}

/// The roots in the (root, marker) pairs `pairs`.
pub open spec fn roots_of(pairs: Set<(Parts, Seq<char>)>) -> Set<Parts> {
    pairs.map(|x: (Parts, Seq<char>)| x.0)
}

/// The markers project `k` is reported with: `.git` for a repository, and
/// every marker whose root lands on `k`.
pub open spec fn markers_of(k: Parts, repos: Set<Parts>, pairs: Set<(Parts, Seq<char>)>) -> Set<Seq<char>> {
    Set::new(|m: Seq<char>|
        (repos.contains(k) && m == git_dir()) || exists|c: Parts|
            #[trigger] pairs.contains((c, m)) && landing(c, repos, roots_of(pairs)) == k)
}

/// The views of (root, marker) pairs, as a set.
pub open spec fn pair_set(v: Seq<(PathName, String)>) -> Set<(Parts, Seq<char>)> {
    v.map_values(|x: (PathName, String)| (x.0@, x.1@)).to_set()
}

/// The paths of `projects`, as a set.
pub open spec fn keys(projects: Seq<Project>) -> Set<Parts> {
    projects.map_values(|e: Project| e.path@).to_set()
}

pub proof fn lemma_keys_contains(v: Seq<Project>, p: Parts)
    ensures
        keys(v).contains(p) <==> exists|k: int| 0 <= k < v.len() && #[trigger] v[k].path@ == p,
{
    let s = v.map_values(|q: Project| q.path@);
    if keys(v).contains(p) {
        assert(s.contains(p));
        let k = choose|k: int| 0 <= k < s.len() && s[k] == p;
        assert(v[k].path@ == p);
    }
    if exists|k: int| 0 <= k < v.len() && #[trigger] v[k].path@ == p {
        let k = choose|k: int| 0 <= k < v.len() && #[trigger] v[k].path@ == p;
        assert(s[k] == p);
        assert(s.contains(p));
    }
}

/// A proper leading run of a path's components comes before it.
pub proof fn lemma_prefix_before(b: Parts, n: int)
    requires
        0 <= n < b.len(),
    ensures
        path_lt(b.subrange(0, n), b),
    decreases n,
{
    let a = b.subrange(0, n);
    if n > 0 {
        lemma_prefix_before(b.drop_first(), n - 1);
        assert(a.drop_first() =~= b.drop_first().subrange(0, n - 1));
    }
}

/// Skipping ancestors that are not projects does not change where `p` lands.
proof fn lemma_landing_skip(p: Parts, hi: int, lo: int, repos: Set<Parts>, cands: Set<Parts>)
    requires
        lo <= hi,
        forall|n: int| lo < n <= hi && covers_at(p, n) ==> !is_project(#[trigger] p.subrange(0, n), repos, cands),
    ensures
        landing_len(p, hi, repos, cands) == if hi > p.len() - 2 { -1 } else { landing_len(p, lo, repos, cands) },
    decreases hi - lo,
{
    if hi > p.len() - 2 {
    } else if hi > lo {
        if hi >= lowest_ancestor(p) {
            assert(covers_at(p, hi));
        }
        lemma_landing_skip(p, hi - 1, lo, repos, cands);
    }
}

/// Where `p` is among `projects`.
pub fn project_position(projects: &Vec<Project>, p: &PathName) -> (r: Option<usize>)
    ensures
        r matches Some(k) ==> k < projects@.len() && projects@[k as int].path@ == p@,
        r is None ==> !keys(projects@).contains(p@),
{
    proof {
        lemma_keys_contains(projects@, p@);
    }
    let mut k: usize = 0;
    while k < projects.len()
        invariant
            k <= projects@.len(),
            forall|m: int| 0 <= m < k ==> projects@[m].path@ != p@,
        decreases projects.len() - k,
    {
        if projects[k].path.same_as(p) {
            return Some(k);
        }
        k = k + 1;
    }
    None
}

impl Ordered for (PathName, String) {
    open spec fn before(&self, other: &Self) -> bool {
        path_lt(self.0@, other.0@)
    }

    proof fn lemma_order(a: &Self, b: &Self, c: &Self) {
        crate::order::lemma_path_order(a.0@, b.0@, c.0@);
        crate::order::lemma_path_order(a.0@, c.0@, b.0@);
        crate::order::lemma_path_order(b.0@, a.0@, c.0@);
        crate::order::lemma_path_order(b.0@, c.0@, a.0@);
    }

    fn precedes(&self, other: &Self) -> (r: bool) {
        self.0.less_than(&other.0)
    }
}

impl Ordered for Project {
    open spec fn before(&self, other: &Self) -> bool {
        path_lt(self.path@, other.path@)
    }

    proof fn lemma_order(a: &Self, b: &Self, c: &Self) {
        crate::order::lemma_path_order(a.path@, b.path@, c.path@);
        crate::order::lemma_path_order(a.path@, c.path@, b.path@);
        crate::order::lemma_path_order(b.path@, a.path@, c.path@);
        crate::order::lemma_path_order(b.path@, c.path@, a.path@);
    }

    fn precedes(&self, other: &Self) -> (r: bool) {
        self.path.less_than(&other.path)
    }
}

/// Each entry's path comes strictly before the next one's, so no two share one.
pub open spec fn by_path(projects: Seq<Project>) -> bool {
    forall|a: int, b: int| 0 <= a < b < projects.len() ==> path_lt(#[trigger] projects[a].path@, #[trigger] projects[b].path@)
}

/// Puts `e` among `projects` where its path belongs.
#[verifier::spinoff_prover]
fn insert_project(projects: &mut Vec<Project>, e: Project) -> (p: Ghost<int>)
    requires
        by_path(old(projects)@),
        !keys(old(projects)@).contains(e.path@),
    ensures
        0 <= p@ <= old(projects)@.len(),
        final(projects)@ == old(projects)@.insert(p@, e),
        by_path(final(projects)@),
{
    proof {
        lemma_keys_contains(projects@, e.path@);
    }
    let ghost old_v = projects@;
    let mut p: usize = 0;
    while p < projects.len() && projects[p].path.less_than(&e.path)
        invariant
            p <= projects@.len(),
            projects@ == old_v,
            forall|q: int| 0 <= q < p ==> path_lt(#[trigger] old_v[q].path@, e.path@),
        decreases projects.len() - p,
    {
        p = p + 1;
    }
    proof {
        if p < old_v.len() {
            crate::order::lemma_path_order(old_v[p as int].path@, e.path@, e.path@);
            assert(old_v[p as int].path@ != e.path@);
            assert(path_lt(e.path@, old_v[p as int].path@));
        }
    }
    let ghost ep = e.path@;
    projects.insert(p, e);
    proof {
        let v = projects@;
        assert(v =~= old_v.insert(p as int, v[p as int]));
        assert(v[p as int].path@ == ep);
        assert forall|a: int, b: int| 0 <= a < b < v.len() implies path_lt(#[trigger] v[a].path@, #[trigger] v[b].path@) by {
            if b < p {
                assert(v[a] == old_v[a] && v[b] == old_v[b]);
                assert(path_lt(old_v[a].path@, old_v[b].path@));
            } else if b == p {
                assert(v[a] == old_v[a]);
                assert(path_lt(old_v[a].path@, ep));
            } else if a == p {
                assert(v[b] == old_v[b - 1]);
                assert(path_lt(ep, old_v[p as int].path@));
                if b - 1 > p {
                    assert(path_lt(old_v[p as int].path@, old_v[b - 1].path@));
                    crate::order::lemma_path_order(ep, old_v[p as int].path@, old_v[b - 1].path@);
                }
            } else if a < p {
                assert(v[a] == old_v[a] && v[b] == old_v[b - 1]);
                assert(path_lt(old_v[a].path@, old_v[b - 1].path@));
            } else {
                assert(v[a] == old_v[a - 1] && v[b] == old_v[b - 1]);
                assert(path_lt(old_v[a - 1].path@, old_v[b - 1].path@));
            }
        }
    }
    Ghost(p as int)
}

/// A reordering of `candidates` holds the same (root, marker) pairs.
proof fn lemma_same_pairs(candidates: Seq<(PathName, String)>, sorted: Seq<(PathName, String)>)
    requires
        sorted.to_multiset() == candidates.to_multiset(),
    ensures
        forall|c: Parts, m: Seq<char>| pair_set(candidates).contains((c, m)) <==> exists|t: int|
            0 <= t < sorted.len() && #[trigger] sorted[t].0@ == c && sorted[t].1@ == m,
        forall|c: Parts| roots_of(pair_set(candidates)).contains(c) <==> exists|t: int|
            0 <= t < sorted.len() && #[trigger] sorted[t].0@ == c,
{
    let vs = candidates.map_values(|x: (PathName, String)| (x.0@, x.1@));
    candidates.to_multiset_ensures();
    sorted.to_multiset_ensures();
    assert forall|c: Parts, m: Seq<char>| pair_set(candidates).contains((c, m)) <==> exists|t: int|
        0 <= t < sorted.len() && #[trigger] sorted[t].0@ == c && sorted[t].1@ == m by {
        if pair_set(candidates).contains((c, m)) {
            assert(vs.contains((c, m)));
            let i = choose|i: int| 0 <= i < vs.len() && vs[i] == (c, m);
            assert(candidates.contains(candidates[i]));
            assert(candidates.to_multiset().count(candidates[i]) > 0);
            assert(sorted.to_multiset().count(candidates[i]) > 0);
            assert(sorted.contains(candidates[i]));
            let t = choose|t: int| 0 <= t < sorted.len() && sorted[t] == candidates[i];
            assert(sorted[t].0@ == c && sorted[t].1@ == m);
        }
        if exists|t: int| 0 <= t < sorted.len() && #[trigger] sorted[t].0@ == c && sorted[t].1@ == m {
            let t = choose|t: int| 0 <= t < sorted.len() && #[trigger] sorted[t].0@ == c && sorted[t].1@ == m;
            assert(sorted.contains(sorted[t]));
            assert(sorted.to_multiset().count(sorted[t]) > 0);
            assert(candidates.to_multiset().count(sorted[t]) > 0);
            assert(candidates.contains(sorted[t]));
            let i = choose|i: int| 0 <= i < candidates.len() && candidates[i] == sorted[t];
            assert(vs[i] == (c, m));
            assert(vs.contains((c, m)));
        }
    }
    assert forall|c: Parts| roots_of(pair_set(candidates)).contains(c) <==> exists|t: int|
        0 <= t < sorted.len() && #[trigger] sorted[t].0@ == c by {
        if roots_of(pair_set(candidates)).contains(c) {
            let x = choose|x: (Parts, Seq<char>)| pair_set(candidates).contains(x) && x.0 == c;
            assert(pair_set(candidates).contains((x.0, x.1)));
        }
        if exists|t: int| 0 <= t < sorted.len() && #[trigger] sorted[t].0@ == c {
            let t = choose|t: int| 0 <= t < sorted.len() && #[trigger] sorted[t].0@ == c;
            assert(pair_set(candidates).contains((c, sorted[t].1@)));
            assert(roots_of(pair_set(candidates)).contains((c, sorted[t].1@).0));
        }
    }
}

/// The (project index, marker) pair `e` holds for `m`: `.git` for a
/// repository, and each marker among the first `j` of `sorted` whose root
/// lands on it.
pub open spec fn earned(
    path: Parts,
    m: Seq<char>,
    j: int,
    sorted: Seq<(PathName, String)>,
    repos: Set<Parts>,
    cands: Set<Parts>,
) -> bool {
    (repos.contains(path) && m == git_dir()) || exists|t: int|
        0 <= t < j && #[trigger] sorted[t].1@ == m && landing(sorted[t].0@, repos, cands) == path
}

/// The marker roots among the first `j` of `sorted` that nothing absorbs.
pub open spec fn own_root(p: Parts, j: int, sorted: Seq<(PathName, String)>, repos: Set<Parts>, cands: Set<Parts>) -> bool {
    exists|t: int| 0 <= t < j && #[trigger] sorted[t].0@ == p && landing_len(p, p.len() - 2, repos, cands) < 0
}

proof fn lemma_landing_len_bounds(p: Parts, n: int, repos: Set<Parts>, cands: Set<Parts>)
    ensures
        landing_len(p, n, repos, cands) == -1 || {
            let l = landing_len(p, n, repos, cands);
            &&& lowest_ancestor(p) <= l <= n
            &&& l <= p.len() - 2
            &&& is_project(p.subrange(0, l), repos, cands)
        },
    decreases n + 1,
{
    if n < lowest_ancestor(p) || n > p.len() - 2 {
    } else if is_project(p.subrange(0, n), repos, cands) {
    } else {
        lemma_landing_len_bounds(p, n - 1, repos, cands);
    }
}

/// Finds the project that marker root `c` lands on, among the two or more
/// levels above it. `projects` must already hold every such project.
#[verifier::spinoff_prover]
fn nearest_project(projects: &Vec<Project>, c: &PathName, Ghost(repos): Ghost<Set<Parts>>, Ghost(cands): Ghost<Set<Parts>>) -> (r: Option<usize>)
    requires
        forall|n: int| covers_at(c@, n) ==> (keys(projects@).contains(#[trigger] c@.subrange(0, n)) <==> is_project(c@.subrange(0, n), repos, cands)),
    ensures
        r matches Some(k) ==> k < projects@.len() && landing_len(c@, c@.len() - 2, repos, cands) >= 0 && projects@[k as int].path@ == landing(c@, repos, cands),
        r is None ==> landing_len(c@, c@.len() - 2, repos, cands) < 0,
{
    let len = c.depth();
    if len < 2 {
        return None;
    }
    let lowest: usize = if is_root_text(&c.parts[0]) { 1 } else { 0 };
    assert(lowest as int == lowest_ancestor(c@));
    let mut n: usize = len - 2;
    loop
        invariant
            2 <= len == c@.len(),
            lowest as int == lowest_ancestor(c@),
            n <= len - 2,
            forall|n: int| covers_at(c@, n) ==> (keys(projects@).contains(#[trigger] c@.subrange(0, n)) <==> is_project(c@.subrange(0, n), repos, cands)),
            forall|q: int| n < q <= len - 2 && covers_at(c@, q) ==> !is_project(#[trigger] c@.subrange(0, q), repos, cands),
        decreases n,
    {
        if n < lowest {
            proof {
                lemma_landing_skip(c@, len - 2, n as int, repos, cands);
            }
            return None;
        }
        let ancestor = prefix_of(c, n);
        match project_position(projects, &ancestor) {
            Some(k) => {
                proof {
                    assert(covers_at(c@, n as int));
                    assert(keys(projects@).contains(c@.subrange(0, n as int))) by {
                        lemma_keys_contains(projects@, c@.subrange(0, n as int));
                    }
                    lemma_landing_skip(c@, len - 2, n as int, repos, cands);
                }
                return Some(k);
            },
            None => {},
        }
        if n == 0 {
            proof {
                lemma_landing_skip(c@, len - 2, -1, repos, cands);
            }
            return None;
        }
        n = n - 1;
    }
}

/// Adds marker `m` to the project at `k`.
#[verifier::spinoff_prover]
fn add_marker(projects: &mut Vec<Project>, k: usize, m: &String)
    requires
        k < old(projects)@.len(),
        ascending(texts(old(projects)@[k as int].markers@)),
    ensures
        final(projects)@.len() == old(projects)@.len(),
        forall|q: int| 0 <= q < old(projects)@.len() && q != k ==> final(projects)@[q] == old(projects)@[q],
        final(projects)@[k as int].path == old(projects)@[k as int].path,
        ascending(texts(final(projects)@[k as int].markers@)),
        texts(final(projects)@[k as int].markers@).to_set() == texts(old(projects)@[k as int].markers@).to_set().insert(m@),
{
    let ghost old_v = projects@;
    let mut e = projects.remove(k);
    insert_marker(&mut e.markers, m);
    projects.insert(k, e);
    assert forall|q: int| 0 <= q < old_v.len() && q != k implies projects@[q] == old_v[q] by {}
}

/// The projects that repository roots `repos` and resolved marker roots
/// `candidates` amount to, ordered by path, each with its markers in order.
///
/// Repositories are projects outright. The marker roots are taken shortest
/// path first; each lands on the nearest project two or more levels above it,
/// or, when there is none, becomes a project itself.
#[verifier::spinoff_prover]
pub fn assemble_projects(repos: &Vec<PathName>, candidates: Vec<(PathName, String)>) -> (r: Vec<Project>)
    ensures
        by_path(r@),
        forall|p: Parts| #[trigger] keys(r@).contains(p) <==> is_project(p, path_set(repos@), roots_of(pair_set(candidates@))),
        forall|k: int| 0 <= k < r@.len() ==> ascending(texts(#[trigger] r@[k].markers@)),
        forall|k: int| 0 <= k < r@.len() ==> texts(#[trigger] r@[k].markers@).to_set() == markers_of(r@[k].path@, path_set(repos@), pair_set(candidates@)),
{
    let ghost rs = path_set(repos@);
    let ghost ps = pair_set(candidates@);
    let ghost cs = roots_of(ps);
    let ghost cands0 = candidates@;
    let mut projects: Vec<Project> = Vec::new();
    let mut i: usize = 0;
    proof {
        reveal_strlit(".git");
        assert(".git"@ =~= git_dir());
    }
    while i < repos.len()
        invariant
            i <= repos@.len(),
            rs == path_set(repos@),
            ".git"@ == git_dir(),
            by_path(projects@),
            forall|p: Parts| #[trigger] keys(projects@).contains(p) <==> exists|t: int| 0 <= t < i && #[trigger] repos@[t]@ == p,
            forall|k: int| 0 <= k < projects@.len() ==> texts(#[trigger] projects@[k].markers@) == seq![git_dir()],
        decreases repos.len() - i,
    {
        proof {
            lemma_keys_contains(projects@, repos@[i as int]@);
        }
        if project_position(&projects, &repos[i]).is_none() {
            let ghost before = projects@;
            let mut markers: Vec<String> = Vec::new();
            let git = ".git".to_owned();
            markers.push(git);
            assert(texts(markers@) =~= seq![git_dir()]);
            let Ghost(at) = insert_project(&mut projects, Project { path: repos[i].duplicate(), markers });
            assert forall|k: int| 0 <= k < projects@.len() implies texts(#[trigger] projects@[k].markers@) == seq![git_dir()] by {
                if k < at {
                    assert(projects@[k] == before[k]);
                } else if k > at {
                    assert(projects@[k] == before[k - 1]);
                }
            }
            assert forall|p: Parts| #[trigger] keys(projects@).contains(p) <==> exists|t: int| 0 <= t < i + 1 && #[trigger] repos@[t]@ == p by {
                lemma_keys_contains(projects@, p);
                lemma_keys_contains(before, p);
                if exists|t: int| 0 <= t < i + 1 && #[trigger] repos@[t]@ == p {
                    let t = choose|t: int| 0 <= t < i + 1 && #[trigger] repos@[t]@ == p;
                    if t == i {
                        assert(projects@[at].path@ == p);
                    } else {
                        assert(keys(before).contains(p));
                        let k = choose|k: int| 0 <= k < before.len() && #[trigger] before[k].path@ == p;
                        if k < at {
                            assert(projects@[k].path@ == p);
                        } else {
                            assert(projects@[k + 1].path@ == p);
                        }
                    }
                }
                if keys(projects@).contains(p) {
                    let k = choose|k: int| 0 <= k < projects@.len() && #[trigger] projects@[k].path@ == p;
                    if k < at {
                        assert(before[k].path@ == p);
                    } else if k > at {
                        assert(before[k - 1].path@ == p);
                    }
                }
            }
        } else {
            assert forall|p: Parts| #[trigger] keys(projects@).contains(p) <==> exists|t: int| 0 <= t < i + 1 && #[trigger] repos@[t]@ == p by {
                if exists|t: int| 0 <= t < i + 1 && #[trigger] repos@[t]@ == p {
                    let t = choose|t: int| 0 <= t < i + 1 && #[trigger] repos@[t]@ == p;
                    if t == i {
                    }
                }
            }
        }
        i = i + 1;
    }
    proof {
        assert forall|p: Parts| #[trigger] keys(projects@).contains(p) <==> rs.contains(p) by {
            lemma_path_set_contains(repos@, p);
        }
        assert forall|k: int| 0 <= k < projects@.len() implies ascending(texts(#[trigger] projects@[k].markers@)) by {
            lemma_chars_lt_irreflexive(git_dir());
        }
    }
    let sorted = sort_items(candidates);
    proof {
        lemma_same_pairs(cands0, sorted@);
        assert forall|k: int, m: Seq<char>| 0 <= k < projects@.len() implies (#[trigger] texts(projects@[k].markers@).contains(m) <==> earned(projects@[k].path@, m, 0, sorted@, rs, cs)) by {
            assert(texts(projects@[k].markers@)[0] == git_dir());
            assert(keys(projects@).contains(projects@[k].path@)) by {
                lemma_keys_contains(projects@, projects@[k].path@);
            }
        }
    }
    let mut j: usize = 0;
    while j < sorted.len()
        invariant
            j <= sorted@.len(),
            rs == path_set(repos@),
            ps == pair_set(cands0),
            cs == roots_of(ps),
            in_order(sorted@),
            forall|c: Parts, m: Seq<char>| ps.contains((c, m)) <==> exists|t: int|
                0 <= t < sorted@.len() && #[trigger] sorted@[t].0@ == c && sorted@[t].1@ == m,
            forall|c: Parts| cs.contains(c) <==> exists|t: int| 0 <= t < sorted@.len() && #[trigger] sorted@[t].0@ == c,
            by_path(projects@),
            forall|p: Parts| #[trigger] keys(projects@).contains(p) <==> (rs.contains(p) || own_root(p, j as int, sorted@, rs, cs)),
            forall|k: int| 0 <= k < projects@.len() ==> ascending(texts(#[trigger] projects@[k].markers@)),
            forall|k: int, m: Seq<char>| 0 <= k < projects@.len() ==> (#[trigger] texts(projects@[k].markers@).contains(m) <==> earned(projects@[k].path@, m, j as int, sorted@, rs, cs)),
        decreases sorted.len() - j,
    {
        let c = &sorted[j].0;
        let m = &sorted[j].1;
        proof {
            assert forall|n: int| covers_at(c@, n) implies (keys(projects@).contains(#[trigger] c@.subrange(0, n)) <==> is_project(c@.subrange(0, n), rs, cs)) by {
                let a = c@.subrange(0, n);
                if is_project(a, rs, cs) && !rs.contains(a) {
                    assert(cs.contains(a));
                    let t = choose|t: int| 0 <= t < sorted@.len() && #[trigger] sorted@[t].0@ == a;
                    lemma_prefix_before(c@, n);
                    if t >= j {
                        if t == j {
                            assert(a.len() < c@.len());
                        } else {
                            assert(!sorted@[t].before(&sorted@[j as int]));
                        }
                    }
                    assert(own_root(a, j as int, sorted@, rs, cs));
                }
            }
        }
        let ghost before = projects@;
        let ghost land = landing(c@, rs, cs);
        match nearest_project(&projects, c, Ghost(rs), Ghost(cs)) {
            Some(k) => {
                add_marker(&mut projects, k, m);
                proof {
                    assert forall|p: Parts| #[trigger] keys(projects@).contains(p) <==> (rs.contains(p) || own_root(p, j + 1, sorted@, rs, cs)) by {
                        lemma_keys_contains(projects@, p);
                        lemma_keys_contains(before, p);
                        if keys(projects@).contains(p) {
                            let q = choose|q: int| 0 <= q < projects@.len() && #[trigger] projects@[q].path@ == p;
                            assert(before[q].path@ == p);
                        }
                        if keys(before).contains(p) {
                            let q = choose|q: int| 0 <= q < before.len() && #[trigger] before[q].path@ == p;
                            assert(projects@[q].path@ == p);
                        }
                        if own_root(p, j + 1, sorted@, rs, cs) {
                            let t = choose|t: int| 0 <= t < j + 1 && #[trigger] sorted@[t].0@ == p && landing_len(p, p.len() - 2, rs, cs) < 0;
                            if t < j {
                                assert(own_root(p, j as int, sorted@, rs, cs));
                            }
                        }
                        if own_root(p, j as int, sorted@, rs, cs) {
                            let t = choose|t: int| 0 <= t < j && #[trigger] sorted@[t].0@ == p && landing_len(p, p.len() - 2, rs, cs) < 0;
                            assert(own_root(p, j + 1, sorted@, rs, cs));
                        }
                    }
                    assert forall|q: int, mm: Seq<char>| 0 <= q < projects@.len() implies (#[trigger] texts(projects@[q].markers@).contains(mm) <==> earned(projects@[q].path@, mm, j + 1, sorted@, rs, cs)) by {
                        let now = texts(projects@[q].markers@);
                        let was = texts(before[q].markers@);
                        assert(now.contains(mm) <==> now.to_set().contains(mm));
                        assert(was.contains(mm) <==> was.to_set().contains(mm));
                        assert(was.contains(mm) <==> earned(before[q].path@, mm, j as int, sorted@, rs, cs));
                        assert(projects@[q].path@ == before[q].path@);
                        if q != k {
                            assert(projects@[q] == before[q]);
                            if land == projects@[q].path@ {
                                assert(before[q].path@ == before[k as int].path@);
                                if q < k {
                                    assert(path_lt(before[q].path@, before[k as int].path@));
                                } else {
                                    assert(path_lt(before[k as int].path@, before[q].path@));
                                }
                                crate::order::lemma_path_order(before[q].path@, before[q].path@, before[q].path@);
                            }
                        }
                        if earned(projects@[q].path@, mm, j + 1, sorted@, rs, cs) && !earned(projects@[q].path@, mm, j as int, sorted@, rs, cs) {
                            let t = choose|t: int| 0 <= t < j + 1 && #[trigger] sorted@[t].1@ == mm && landing(sorted@[t].0@, rs, cs) == projects@[q].path@;
                            assert(t == j);
                        }
                        if earned(projects@[q].path@, mm, j as int, sorted@, rs, cs) {
                            if !(rs.contains(projects@[q].path@) && mm == git_dir()) {
                                let t = choose|t: int| 0 <= t < j && #[trigger] sorted@[t].1@ == mm && landing(sorted@[t].0@, rs, cs) == projects@[q].path@;
                                assert(earned(projects@[q].path@, mm, j + 1, sorted@, rs, cs));
                            }
                        }
                        if q == k && mm == m@ {
                            assert(sorted@[j as int].1@ == mm);
                            assert(earned(projects@[q].path@, mm, j + 1, sorted@, rs, cs));
                        }
                    }
                }
            },
            None => {
                proof {
                    assert(land == c@);
                    assert(own_root(c@, j + 1, sorted@, rs, cs));
                    assert(cs.contains(c@));
                    assert forall|t: int| 0 <= t < j && landing(#[trigger] sorted@[t].0@, rs, cs) == c@ implies own_root(c@, j as int, sorted@, rs, cs) by {
                        let x = sorted@[t].0@;
                        lemma_landing_len_bounds(x, x.len() - 2, rs, cs);
                        if landing_len(x, x.len() - 2, rs, cs) >= 0 {
                            lemma_prefix_before(x, landing_len(x, x.len() - 2, rs, cs));
                            assert(!sorted@[j as int].before(&sorted@[t]));
                        }
                    }
                }
                match project_position(&projects, c) {
                    Some(k) => {
                        add_marker(&mut projects, k, m);
                        proof {
                            assert forall|p: Parts| #[trigger] keys(projects@).contains(p) <==> (rs.contains(p) || own_root(p, j + 1, sorted@, rs, cs)) by {
                                lemma_keys_contains(projects@, p);
                                lemma_keys_contains(before, p);
                                if keys(projects@).contains(p) {
                                    let q = choose|q: int| 0 <= q < projects@.len() && #[trigger] projects@[q].path@ == p;
                                    assert(before[q].path@ == p);
                                }
                                if keys(before).contains(p) {
                                    let q = choose|q: int| 0 <= q < before.len() && #[trigger] before[q].path@ == p;
                                    assert(projects@[q].path@ == p);
                                }
                                if own_root(p, j + 1, sorted@, rs, cs) && p != c@ {
                                    let t = choose|t: int| 0 <= t < j + 1 && #[trigger] sorted@[t].0@ == p && landing_len(p, p.len() - 2, rs, cs) < 0;
                                    assert(own_root(p, j as int, sorted@, rs, cs));
                                }
                                if p == c@ {
                                    assert(projects@[k as int].path@ == p);
                                }
                                if own_root(p, j as int, sorted@, rs, cs) {
                                    let t = choose|t: int| 0 <= t < j && #[trigger] sorted@[t].0@ == p && landing_len(p, p.len() - 2, rs, cs) < 0;
                                    assert(own_root(p, j + 1, sorted@, rs, cs));
                                }
                            }
                            assert forall|q: int, mm: Seq<char>| 0 <= q < projects@.len() implies (#[trigger] texts(projects@[q].markers@).contains(mm) <==> earned(projects@[q].path@, mm, j + 1, sorted@, rs, cs)) by {
                                let now = texts(projects@[q].markers@);
                                let was = texts(before[q].markers@);
                                assert(now.contains(mm) <==> now.to_set().contains(mm));
                                assert(was.contains(mm) <==> was.to_set().contains(mm));
                                assert(was.contains(mm) <==> earned(before[q].path@, mm, j as int, sorted@, rs, cs));
                                assert(projects@[q].path@ == before[q].path@);
                                if q != k {
                                    assert(projects@[q] == before[q]);
                                    if land == projects@[q].path@ {
                                        if q < k {
                                            assert(path_lt(before[q].path@, before[k as int].path@));
                                        } else {
                                            assert(path_lt(before[k as int].path@, before[q].path@));
                                        }
                                        crate::order::lemma_path_order(before[q].path@, before[q].path@, before[q].path@);
                                    }
                                }
                                if earned(projects@[q].path@, mm, j + 1, sorted@, rs, cs) && !earned(projects@[q].path@, mm, j as int, sorted@, rs, cs) {
                                    let t = choose|t: int| 0 <= t < j + 1 && #[trigger] sorted@[t].1@ == mm && landing(sorted@[t].0@, rs, cs) == projects@[q].path@;
                                    assert(t == j);
                                }
                                if earned(projects@[q].path@, mm, j as int, sorted@, rs, cs) {
                                    if !(rs.contains(projects@[q].path@) && mm == git_dir()) {
                                        let t = choose|t: int| 0 <= t < j && #[trigger] sorted@[t].1@ == mm && landing(sorted@[t].0@, rs, cs) == projects@[q].path@;
                                        assert(earned(projects@[q].path@, mm, j + 1, sorted@, rs, cs));
                                    }
                                }
                                if q == k && mm == m@ {
                                    assert(sorted@[j as int].1@ == mm);
                                    assert(earned(projects@[q].path@, mm, j + 1, sorted@, rs, cs));
                                }
                            }
                        }
                    },
                    None => {
                        let mut markers: Vec<String> = Vec::new();
                        markers.push(m.clone());
                        let ghost fresh = texts(markers@);
                        assert(fresh =~= seq![m@]);
                        let Ghost(at) = insert_project(&mut projects, Project { path: c.duplicate(), markers });
                        proof {
                            assert(!rs.contains(c@));
                            assert(!own_root(c@, j as int, sorted@, rs, cs));
                            assert forall|p: Parts| #[trigger] keys(projects@).contains(p) <==> (rs.contains(p) || own_root(p, j + 1, sorted@, rs, cs)) by {
                                lemma_keys_contains(projects@, p);
                                lemma_keys_contains(before, p);
                                if keys(projects@).contains(p) && p != c@ {
                                    let q = choose|q: int| 0 <= q < projects@.len() && #[trigger] projects@[q].path@ == p;
                                    if q < at {
                                        assert(before[q].path@ == p);
                                    } else if q > at {
                                        assert(before[q - 1].path@ == p);
                                    }
                                }
                                if keys(before).contains(p) {
                                    let q = choose|q: int| 0 <= q < before.len() && #[trigger] before[q].path@ == p;
                                    if q < at {
                                        assert(projects@[q].path@ == p);
                                    } else {
                                        assert(projects@[q + 1].path@ == p);
                                    }
                                }
                                if p == c@ {
                                    assert(projects@[at].path@ == p);
                                }
                                if own_root(p, j + 1, sorted@, rs, cs) && p != c@ {
                                    let t = choose|t: int| 0 <= t < j + 1 && #[trigger] sorted@[t].0@ == p && landing_len(p, p.len() - 2, rs, cs) < 0;
                                    assert(own_root(p, j as int, sorted@, rs, cs));
                                }
                                if own_root(p, j as int, sorted@, rs, cs) {
                                    let t = choose|t: int| 0 <= t < j && #[trigger] sorted@[t].0@ == p && landing_len(p, p.len() - 2, rs, cs) < 0;
                                    assert(own_root(p, j + 1, sorted@, rs, cs));
                                }
                            }
                            assert forall|q: int| 0 <= q < projects@.len() implies ascending(texts(#[trigger] projects@[q].markers@)) by {
                                if q < at {
                                    assert(projects@[q] == before[q]);
                                } else if q > at {
                                    assert(projects@[q] == before[q - 1]);
                                } else {
                                    lemma_chars_lt_irreflexive(m@);
                                }
                            }
                            assert forall|q: int, mm: Seq<char>| 0 <= q < projects@.len() implies (#[trigger] texts(projects@[q].markers@).contains(mm) <==> earned(projects@[q].path@, mm, j + 1, sorted@, rs, cs)) by {
                                if q == at {
                                    assert(projects@[q].path@ == c@);
                                    if earned(c@, mm, j as int, sorted@, rs, cs) {
                                        let t = choose|t: int| 0 <= t < j && #[trigger] sorted@[t].1@ == mm && landing(sorted@[t].0@, rs, cs) == c@;
                                    }
                                    if earned(c@, mm, j + 1, sorted@, rs, cs) {
                                        let t = choose|t: int| 0 <= t < j + 1 && #[trigger] sorted@[t].1@ == mm && landing(sorted@[t].0@, rs, cs) == c@;
                                        assert(t == j);
                                        assert(fresh[0] == mm);
                                    }
                                    if fresh.contains(mm) {
                                        assert(mm == m@);
                                        assert(sorted@[j as int].1@ == mm);
                                    }
                                } else {
                                    let oq = if q < at { q } else { q - 1 };
                                    assert(projects@[q] == before[oq]);
                                    assert(before[oq].path@ != c@) by {
                                        lemma_keys_contains(before, c@);
                                    }
                                    if earned(projects@[q].path@, mm, j + 1, sorted@, rs, cs) && !earned(projects@[q].path@, mm, j as int, sorted@, rs, cs) {
                                        let t = choose|t: int| 0 <= t < j + 1 && #[trigger] sorted@[t].1@ == mm && landing(sorted@[t].0@, rs, cs) == projects@[q].path@;
                                        assert(t == j);
                                    }
                                    if earned(projects@[q].path@, mm, j as int, sorted@, rs, cs) {
                                        if !(rs.contains(projects@[q].path@) && mm == git_dir()) {
                                            let t = choose|t: int| 0 <= t < j && #[trigger] sorted@[t].1@ == mm && landing(sorted@[t].0@, rs, cs) == projects@[q].path@;
                                            assert(earned(projects@[q].path@, mm, j + 1, sorted@, rs, cs));
                                        }
                                    }
                                }
                            }
                        }
                    },
                }
            },
        }
        j = j + 1;
    }
    proof {
        assert forall|k: int| 0 <= k < projects@.len() implies texts(#[trigger] projects@[k].markers@).to_set() == markers_of(projects@[k].path@, rs, ps) by {
            let t = texts(projects@[k].markers@);
            let path = projects@[k].path@;
            assert forall|mm: Seq<char>| t.to_set().contains(mm) <==> markers_of(path, rs, ps).contains(mm) by {
                assert(t.to_set().contains(mm) <==> t.contains(mm));
                assert(t.contains(mm) <==> earned(path, mm, j as int, sorted@, rs, cs));
                if earned(path, mm, j as int, sorted@, rs, cs) && !(rs.contains(path) && mm == git_dir()) {
                    let i = choose|i: int| 0 <= i < j && #[trigger] sorted@[i].1@ == mm && landing(sorted@[i].0@, rs, cs) == path;
                    assert(ps.contains((sorted@[i].0@, mm)));
                }
                if markers_of(path, rs, ps).contains(mm) && !(rs.contains(path) && mm == git_dir()) {
                    let c = choose|c: Parts| #[trigger] ps.contains((c, mm)) && landing(c, rs, roots_of(ps)) == path;
                    let i = choose|i: int| 0 <= i < sorted@.len() && #[trigger] sorted@[i].0@ == c && sorted@[i].1@ == mm;
                    assert(earned(path, mm, j as int, sorted@, rs, cs));
                }
            }
            assert(t.to_set() =~= markers_of(path, rs, ps));
        }
    }
    projects
}

/// The name of the entry `p` names, as `Path::file_name` gives it: its last
/// component, unless that is the root, `.` or `..`.
pub open spec fn file_name_of(p: Parts) -> Option<Seq<char>> {
    if p.len() > 0 && p.last() != root_part() && p.last() != seq!['.'] && p.last() != seq!['.', '.'] {
        Some(p.last())
    } else {
        None
    }
}

/// The name of the entry `p` names.
pub fn file_name(p: &PathName) -> (r: Option<String>)
    ensures
        match file_name_of(p@) {
            Some(n) => r matches Some(s) && s@ == n,
            None => r is None,
        },
{
    let n = p.parts.len();
    if n == 0 {
        return None;
    }
    let last = &p.parts[n - 1];
    let v = chars_of(last.as_str());
    let special = (v.len() == 1 && (v[0] == '/' || v[0] == '.')) || (v.len() == 2 && v[0] == '.' && v[1] == '.');
    proof {
        assert(last@ == p@.last());
        if v@ =~= root_part() || v@ =~= seq!['.'] || v@ =~= seq!['.', '.'] {
        }
        if !special {
            if v.len() == 1 {
                assert(v@ != root_part() && v@ != seq!['.']) by {
                    assert(root_part()[0] == '/');
                    assert(seq!['.'][0] == '.');
                }
            }
            if v.len() == 2 {
                assert(v@ != seq!['.', '.']) by {
                    assert(seq!['.', '.'][0] == '.' && seq!['.', '.'][1] == '.');
                }
            }
        }
    }
    if special {
        assert(v@ =~= root_part() || v@ =~= seq!['.'] || v@ =~= seq!['.', '.']);
        None
    } else {
        Some(last.clone())
    }
}

/// The marker file at `m` (a path from a scan) with the name `name` resolves
/// to `root`, given what the probes can say about the directory holding it.
pub open spec fn marker_resolves<E, G: Fn(&PathName) -> Result<bool, E>, M: Fn(&PathName, ContentTest) -> Result<bool, E>, X: Fn(&PathName) -> bool>(
    is_repo: G,
    file_matches: M,
    present: X,
    files: Seq<Seq<char>>,
    m: Parts,
    root: Parts,
    name: Seq<char>,
) -> bool {
    &&& file_name_of(m) == Some(name)
    &&& parent_of(m) is Some
    &&& resolves_to(is_repo, file_matches, present, files, parent_of(m)->0, name, root)
}

/// How the probes can fail (with `e`) while the marker files `markers` are
/// resolved: on one of them that has a name and a directory.
pub open spec fn markers_fail<E, G: Fn(&PathName) -> Result<bool, E>, M: Fn(&PathName, ContentTest) -> Result<bool, E>>(
    is_repo: G,
    file_matches: M,
    markers: Seq<Parts>,
    e: E,
) -> bool {
    exists|j: int| 0 <= j < markers.len() && file_name_of(#[trigger] markers[j]) is Some && parent_of(markers[j]) is Some
        && resolution_fails(is_repo, file_matches, parent_of(markers[j])->0, file_name_of(markers[j])->0, e)
}

/// `pairs` holds a (root, name) pair for every marker file in `markers` that
/// has a name and a directory, resolved as the probes can say, and nothing
/// else.
pub open spec fn marker_roots<E, G: Fn(&PathName) -> Result<bool, E>, M: Fn(&PathName, ContentTest) -> Result<bool, E>, X: Fn(&PathName) -> bool>(
    is_repo: G,
    file_matches: M,
    present: X,
    files: Seq<Seq<char>>,
    markers: Seq<Parts>,
    pairs: Set<(Parts, Seq<char>)>,
) -> bool {
    &&& forall|x: (Parts, Seq<char>)| #[trigger] pairs.contains(x) ==> exists|i: int|
        0 <= i < markers.len() && marker_resolves(is_repo, file_matches, present, files, #[trigger] markers[i], x.0, x.1)
    &&& forall|i: int| 0 <= i < markers.len() && file_name_of(#[trigger] markers[i]) is Some && parent_of(markers[i]) is Some ==> exists|c: Parts|
        pairs.contains((c, file_name_of(markers[i])->0)) && marker_resolves(is_repo, file_matches, present, files, markers[i], c, file_name_of(markers[i])->0)
}

/// The names the marker files `markers` go by, and `.git`.
pub open spec fn marker_names(markers: Seq<Parts>) -> Set<Seq<char>> {
    Set::new(|m: Seq<char>| m == git_dir() || exists|i: int| 0 <= i < markers.len() && file_name_of(#[trigger] markers[i]) == Some(m))
}

/// Every marker file of `markers` has a name among `names`, or none.
pub open spec fn named_among(markers: Seq<Parts>, names: Seq<Seq<char>>) -> bool {
    forall|i: int| 0 <= i < markers.len() ==> (file_name_of(#[trigger] markers[i]) matches Some(n) ==> names.contains(n))
}

/// A project is reported only with `.git` or the name of a marker file that
/// was resolved.
pub proof fn lemma_marker_names<E, G: Fn(&PathName) -> Result<bool, E>, M: Fn(&PathName, ContentTest) -> Result<bool, E>, X: Fn(&PathName) -> bool>(
    is_repo: G,
    file_matches: M,
    present: X,
    files: Seq<Seq<char>>,
    markers: Seq<Parts>,
    pairs: Set<(Parts, Seq<char>)>,
    k: Parts,
    repos: Set<Parts>,
)
    requires
        marker_roots(is_repo, file_matches, present, files, markers, pairs),
    ensures
        markers_of(k, repos, pairs).subset_of(marker_names(markers)),
{
    assert forall|m: Seq<char>| markers_of(k, repos, pairs).contains(m) implies #[trigger] marker_names(markers).contains(m) by {
        if !(repos.contains(k) && m == git_dir()) {
            let c = choose|c: Parts| #[trigger] pairs.contains((c, m)) && landing(c, repos, roots_of(pairs)) == k;
            assert(pairs.contains((c, m)));
            let i = choose|i: int| 0 <= i < markers.len() && marker_resolves(is_repo, file_matches, present, files, #[trigger] markers[i], c, m);
            assert(file_name_of(markers[i]) == Some(m));
        }
    }
}

/// The paths of projects listed by path are listed in path order, and are
/// the keys of the projects.
proof fn lemma_paths_of_projects(details: Seq<Project>, roots: Seq<PathName>)
    requires
        roots.len() == details.len(),
        by_path(details),
        forall|m: int| 0 <= m < roots.len() ==> (#[trigger] roots[m])@ == details[m].path@,
    ensures
        forall|a: int, b: int| 0 <= a < b < roots.len() ==> path_lt(#[trigger] roots[a]@, #[trigger] roots[b]@),
        forall|p: Parts| #[trigger] path_views(roots).contains(p) <==> keys(details).contains(p),
{
    assert forall|p: Parts| #[trigger] path_views(roots).contains(p) <==> keys(details).contains(p) by {
        lemma_keys_contains(details, p);
        if path_views(roots).contains(p) {
            let m = choose|m: int| 0 <= m < path_views(roots).len() && path_views(roots)[m] == p;
            assert(details[m].path@ == p);
        }
        if keys(details).contains(p) {
            let m = choose|m: int| 0 <= m < details.len() && #[trigger] details[m].path@ == p;
            assert(path_views(roots)[m] == p);
        }
    }
    assert forall|a: int, b: int| 0 <= a < b < roots.len() implies path_lt(#[trigger] roots[a]@, #[trigger] roots[b]@) by {
        assert(path_lt(details[a].path@, details[b].path@));
    }
}

/// The first `max` items of `s`, or all of them when there is no limit or
/// `s` is shorter.
pub open spec fn limited<A>(s: Seq<A>, max: Option<usize>) -> Seq<A> {
    match max {
        Some(m) => if m < s.len() { s.take(m as int) } else { s },
        None => s,
    }
}

/// Finds the projects below the configured search directories.
#[derive(Debug)]
pub struct ProjectFinder {
    pub config: Config,
    pub root_resolver: RootResolver,
}

impl ProjectFinder {
    /// A finder for `config`, resolving markers with the files it names.
    pub fn new(config: Config) -> (r: ProjectFinder)
        ensures
            r.config@ == config@,
            texts(r.root_resolver.marker_files@) == config@.marker_files,
            texts(r.root_resolver.workspace_files@) == config@.workspace_files,
    {
        let root_resolver = RootResolver::from_config(&config);
        ProjectFinder { config, root_resolver }
    }

    /// Checks that every search directory is one, as `is_dir` reports; the
    /// first that is not is the error.
    pub fn check_search_dirs<X>(&self, is_dir: &X) -> (r: Result<(), Error>)
        where
            X: Fn(&PathName) -> bool,
        requires
            forall|p: &PathName| is_dir.requires((p,)),
        ensures
            match r {
                Ok(()) => forall|k: int| 0 <= k < self.config.paths@.len() ==> presence_says(*is_dir, #[trigger] self.config.paths@[k]@, true),
                Err(e) => e matches Error::PathNotFound(p) && exists|k: int| 0 <= k < self.config.paths@.len()
                    && #[trigger] self.config.paths@[k]@ == p@ && presence_says(*is_dir, p@, false)
                    && forall|j: int| 0 <= j < k ==> presence_says(*is_dir, #[trigger] self.config.paths@[j]@, true),
            },
    {
        let mut k: usize = 0;
        while k < self.config.paths.len()
            invariant
                k <= self.config.paths@.len(),
                forall|p: &PathName| is_dir.requires((p,)),
                forall|j: int| 0 <= j < k ==> presence_says(*is_dir, #[trigger] self.config.paths@[j]@, true),
            decreases self.config.paths.len() - k,
        {
            let here = is_dir(&self.config.paths[k]);
            assert(presence_says(*is_dir, self.config.paths@[k as int]@, here));
            if !here {
                let missing = self.config.paths[k].duplicate();
                assert(self.config.paths@[k as int]@ == missing@);
                return Err(Error::PathNotFound(missing));
            }
            k = k + 1;
        }
        Ok(())
    }

    /// Resolves each marker file a scan found to its project root, paired
    /// with the marker's name. A path without a name or a directory is passed
    /// over.
    /// The first failure of a probe is the error.
    #[verifier::spinoff_prover]
    pub fn resolve_marker_roots<E, G, M, X>(&self, scan: &DirectoryScan, is_repo: &G, file_matches: &M, present: &X) -> (r: Result<Vec<(PathName, String)>, E>)
        where
            G: Fn(&PathName) -> Result<bool, E>,
            M: Fn(&PathName, ContentTest) -> Result<bool, E>,
            X: Fn(&PathName) -> bool,
        requires
            forall|p: &PathName| is_repo.requires((p,)),
            forall|p: &PathName, t: ContentTest| file_matches.requires((p, t)),
            forall|p: &PathName| present.requires((p,)),
        ensures
            r matches Ok(v) ==> marker_roots(*is_repo, *file_matches, *present, self.root_resolver.workspace_texts(),
                path_views(scan.marker_files@), pair_set(v@)),
            r matches Err(e) ==> markers_fail(*is_repo, *file_matches, path_views(scan.marker_files@), e),
    {
        let ghost files = self.root_resolver.workspace_texts();
        let ghost markers = path_views(scan.marker_files@);
        let mut pairs: Vec<(PathName, String)> = Vec::new();
        let mut i: usize = 0;
        while i < scan.marker_files.len()
            invariant
                i <= scan.marker_files@.len(),
                files == self.root_resolver.workspace_texts(),
                markers == path_views(scan.marker_files@),
                forall|p: &PathName| is_repo.requires((p,)),
                forall|p: &PathName, t: ContentTest| file_matches.requires((p, t)),
                forall|p: &PathName| present.requires((p,)),
                forall|x: (Parts, Seq<char>)| #[trigger] pair_set(pairs@).contains(x) ==> exists|j: int|
                    0 <= j < i && marker_resolves(*is_repo, *file_matches, *present, files, #[trigger] markers[j], x.0, x.1),
                forall|j: int| 0 <= j < i && file_name_of(#[trigger] markers[j]) is Some && parent_of(markers[j]) is Some ==> exists|c: Parts|
                    pair_set(pairs@).contains((c, file_name_of(markers[j])->0)) && marker_resolves(*is_repo, *file_matches, *present, files, markers[j], c, file_name_of(markers[j])->0),
            decreases scan.marker_files.len() - i,
        {
            let marker = &scan.marker_files[i];
            assert(markers[i as int] == marker@);
            match marker.parent() {
                Some(dir) => match file_name(marker) {
                    Some(name) => {
                        let root = match self.root_resolver.resolve(&dir, name.as_str(), is_repo, file_matches, present) {
                            Ok(root) => root,
                            Err(e) => {
                                assert(resolution_fails(*is_repo, *file_matches, parent_of(markers[i as int])->0, file_name_of(markers[i as int])->0, e));
                                return Err(e);
                            },
                        };
                        let ghost before = pairs@;
                        let ghost x = (root@, name@);
                        assert(marker_resolves(*is_repo, *file_matches, *present, files, markers[i as int], x.0, x.1));
                        pairs.push((root, name));
                        proof {
                            assert(pairs@ == before.push(pairs@.last()));
                            assert forall|y: (Parts, Seq<char>)| #[trigger] pair_set(pairs@).contains(y) <==> (pair_set(before).contains(y) || y == x) by {
                                lemma_pair_set_push(before, pairs@.last(), y);
                            }
                            assert forall|y: (Parts, Seq<char>)| #[trigger] pair_set(before).contains(y) implies pair_set(pairs@).contains(y) by {
                                lemma_pair_set_push(before, pairs@.last(), y);
                            }
                            assert(pair_set(pairs@).contains(x));
                        }
                    },
                    None => {},
                },
                None => {},
            }
            i = i + 1;
        }
        proof {
            assert forall|j: int| 0 <= j < markers.len() && file_name_of(#[trigger] markers[j]) is Some && parent_of(markers[j]) is Some implies exists|c: Parts|
                pair_set(pairs@).contains((c, file_name_of(markers[j])->0)) && marker_resolves(*is_repo, *file_matches, *present, files, markers[j], c, file_name_of(markers[j])->0) by {
                assert(j < i);
            }
        }
        Ok(pairs)
    }

    /// The projects a scan amounts to, ordered by path, each with the markers
    /// that identified it: the repositories it found, and the roots its marker
    /// files resolve to, as [`assemble_projects`] combines them.
    /// The first failure of a probe is the error.
    pub fn project_details_of<E, G, M, X>(&self, scan: &DirectoryScan, is_repo: &G, file_matches: &M, present: &X) -> (r: Result<Vec<Project>, E>)
        where
            G: Fn(&PathName) -> Result<bool, E>,
            M: Fn(&PathName, ContentTest) -> Result<bool, E>,
            X: Fn(&PathName) -> bool,
        requires
            forall|p: &PathName| is_repo.requires((p,)),
            forall|p: &PathName, t: ContentTest| file_matches.requires((p, t)),
            forall|p: &PathName| present.requires((p,)),
        ensures
            r matches Ok(ps) ==> self.details_found(*scan, *is_repo, *file_matches, *present, ps@),
            r matches Err(e) ==> markers_fail(*is_repo, *file_matches, path_views(scan.marker_files@), e),
    {
        let candidates = match self.resolve_marker_roots(scan, is_repo, file_matches, present) {
            Ok(v) => v,
            Err(e) => return Err(e),
        };
        let ghost pairs = pair_set(candidates@);
        let projects = assemble_projects(&scan.git_repos, candidates);
        proof {
            let markers = path_views(scan.marker_files@);
            let names = texts(self.config.marker_files@);
            assert forall|k: int| 0 <= k < projects@.len() implies
                texts(#[trigger] projects@[k].markers@).to_set().subset_of(marker_names(markers)) by {
                lemma_marker_names(*is_repo, *file_matches, *present, self.root_resolver.workspace_texts(), markers, pairs,
                    projects@[k].path@, path_set(scan.git_repos@));
            }
            if named_among(markers, names) {
                assert forall|k: int, j: int| 0 <= k < projects@.len() && 0 <= j < projects@[k].markers@.len() implies
                    #[trigger] projects@[k].markers@[j]@ == git_dir() || names.contains(projects@[k].markers@[j]@) by {
                    let m = projects@[k].markers@[j]@;
                    assert(texts(projects@[k].markers@)[j] == m);
                    assert(texts(projects@[k].markers@).to_set().contains(m));
                    assert(marker_names(markers).contains(m));
                    if m != git_dir() {
                        let i = choose|i: int| 0 <= i < markers.len() && file_name_of(#[trigger] markers[i]) == Some(m);
                        assert(file_name_of(markers[i]) matches Some(n) ==> names.contains(n));
                    }
                }
            }
        }
        assert(self.details_found(*scan, *is_repo, *file_matches, *present, projects@));
        Ok(projects)
    }

    /// `ps` are the projects `scan` amounts to, given what the probes answer:
    /// ordered by path, each with its markers in order, where a marker is
    /// `.git` or the name of a marker file of the scan, and a configured
    /// marker name whenever the scan's marker files all have one.
    pub open spec fn details_found<E, G: Fn(&PathName) -> Result<bool, E>, M: Fn(&PathName, ContentTest) -> Result<bool, E>, X: Fn(&PathName) -> bool>(
        &self,
        scan: DirectoryScan,
        is_repo: G,
        file_matches: M,
        present: X,
        ps: Seq<Project>,
    ) -> bool {
        &&& exists|pairs: Set<(Parts, Seq<char>)>| {
            &&& #[trigger] marker_roots(is_repo, file_matches, present, self.root_resolver.workspace_texts(),
                path_views(scan.marker_files@), pairs)
            &&& by_path(ps)
            &&& forall|p: Parts| #[trigger] keys(ps).contains(p) <==> is_project(p, path_set(scan.git_repos@), roots_of(pairs))
            &&& forall|k: int| 0 <= k < ps.len() ==> ascending(texts(#[trigger] ps[k].markers@))
            &&& forall|k: int| 0 <= k < ps.len() ==> texts(#[trigger] ps[k].markers@).to_set()
                == markers_of(ps[k].path@, path_set(scan.git_repos@), pairs)
        }
        &&& forall|k: int| 0 <= k < ps.len() ==>
            texts(#[trigger] ps[k].markers@).to_set().subset_of(marker_names(path_views(scan.marker_files@)))
        &&& named_among(path_views(scan.marker_files@), texts(self.config.marker_files@)) ==>
            forall|k: int, j: int| 0 <= k < ps.len() && 0 <= j < ps[k].markers@.len() ==> #[trigger] ps[k].markers@[j]@ == git_dir()
                || texts(self.config.marker_files@).contains(ps[k].markers@[j]@)
    }

    /// `p` is the first search directory that `is_dir` can report is not
    /// one: it can report every earlier one is.
    pub open spec fn first_missing<D: Fn(&PathName) -> bool>(&self, is_dir: D, p: Parts) -> bool {
        exists|k: int| 0 <= k < self.config.paths@.len()
            && #[trigger] self.config.paths@[k]@ == p && presence_says(is_dir, p, false)
            && forall|j: int| 0 <= j < k ==> presence_says(is_dir, #[trigger] self.config.paths@[j]@, true)
    }

    /// `is_dir` can report every search directory is one.
    pub open spec fn all_present<D: Fn(&PathName) -> bool>(&self, is_dir: D) -> bool {
        forall|k: int| 0 <= k < self.config.paths@.len() ==> presence_says(is_dir, #[trigger] self.config.paths@[k]@, true)
    }

    /// How a search fails with `e` once the search directories passed: the
    /// walk fails with it, or it walks and a marker cannot be resolved.
    pub open spec fn search_fails<E, W: Fn(&Config) -> Result<DirectoryScan, E>, G: Fn(&PathName) -> Result<bool, E>, M: Fn(&PathName, ContentTest) -> Result<bool, E>>(
        &self,
        walk: W,
        is_repo: G,
        file_matches: M,
        e: E,
    ) -> bool {
        call_ensures(walk, (&self.config,), Err::<DirectoryScan, E>(e)) || exists|scan: DirectoryScan|
            #[trigger] call_ensures(walk, (&self.config,), Ok::<DirectoryScan, E>(scan))
                && markers_fail(is_repo, file_matches, path_views(scan.marker_files@), e)
    }

    /// The project roots a scan amounts to, ordered by path; with a result
    /// limit of `m`, only the first `m` of them.
    /// The first failure of a probe is the error.
    pub fn project_roots_of<E, G, M, X>(&self, scan: &DirectoryScan, is_repo: &G, file_matches: &M, present: &X) -> (r: Result<Vec<PathName>, E>)
        where
            G: Fn(&PathName) -> Result<bool, E>,
            M: Fn(&PathName, ContentTest) -> Result<bool, E>,
            X: Fn(&PathName) -> bool,
        requires
            forall|p: &PathName| is_repo.requires((p,)),
            forall|p: &PathName, t: ContentTest| file_matches.requires((p, t)),
            forall|p: &PathName| present.requires((p,)),
        ensures
            r matches Ok(roots) ==> self.roots_found(*scan, *is_repo, *file_matches, *present, path_views(roots@)),
            r matches Err(e) ==> markers_fail(*is_repo, *file_matches, path_views(scan.marker_files@), e),
    {
        let projects = match self.project_details_of(scan, is_repo, file_matches, present) {
            Ok(v) => v,
            Err(e) => return Err(e),
        };
        let ghost details = projects@;
        let mut roots: Vec<PathName> = Vec::new();
        let mut k: usize = 0;
        while k < projects.len()
            invariant
                k <= projects@.len(),
                details == projects@,
                roots@.len() == k,
                forall|m: int| 0 <= m < k ==> (#[trigger] roots@[m])@ == details[m].path@,
            decreases projects.len() - k,
        {
            roots.push(projects[k].path.duplicate());
            k = k + 1;
        }
        proof {
            lemma_paths_of_projects(details, roots@);
        }
        let ghost all = path_views(roots@);
        match self.config.max_results {
            Some(m) => roots.truncate(m),
            None => {},
        }
        assert(path_views(roots@) =~= limited(all, self.config.max_results));
        Ok(roots)
    }

    /// `roots` are the project roots `scan` amounts to, ordered by path and
    /// cut to the result limit, given what the probes answer.
    pub open spec fn roots_found<E, G: Fn(&PathName) -> Result<bool, E>, M: Fn(&PathName, ContentTest) -> Result<bool, E>, X: Fn(&PathName) -> bool>(
        &self,
        scan: DirectoryScan,
        is_repo: G,
        file_matches: M,
        present: X,
        roots: Seq<Parts>,
    ) -> bool {
        exists|pairs: Set<(Parts, Seq<char>)>, all: Seq<Parts>| {
            &&& #[trigger] marker_roots(is_repo, file_matches, present, self.root_resolver.workspace_texts(),
                path_views(scan.marker_files@), pairs)
            &&& forall|a: int, b: int| 0 <= a < b < all.len() ==> path_lt(#[trigger] all[a], #[trigger] all[b])
            &&& forall|p: Parts| #[trigger] all.contains(p) <==> is_project(p, path_set(scan.git_repos@), roots_of(pairs))
            &&& roots == #[trigger] limited(all, self.config.max_results)
        }
    }

    /// The whole search: checks that every search directory is one, as
    /// `is_dir` reports, then has `walk` scan them, then finds the projects
    /// of the scan with their markers, ordered by path. The first search
    /// directory that is not one is the error; otherwise the first failure
    /// of the walk or of a probe is.
    pub fn find_project_details<E, D, W, G, M, X>(&self, is_dir: &D, walk: &W, is_repo: &G, file_matches: &M, present: &X) -> (r: Result<Vec<Project>, SearchError<E>>)
        where
            D: Fn(&PathName) -> bool,
            W: Fn(&Config) -> Result<DirectoryScan, E>,
            G: Fn(&PathName) -> Result<bool, E>,
            M: Fn(&PathName, ContentTest) -> Result<bool, E>,
            X: Fn(&PathName) -> bool,
        requires
            forall|p: &PathName| is_dir.requires((p,)),
            forall|c: &Config| walk.requires((c,)),
            forall|p: &PathName| is_repo.requires((p,)),
            forall|p: &PathName, t: ContentTest| file_matches.requires((p, t)),
            forall|p: &PathName| present.requires((p,)),
        ensures
            match r {
                Err(SearchError::Search(e)) => e matches Error::PathNotFound(p) && self.first_missing(*is_dir, p@),
                _ => self.all_present(*is_dir),
            },
            r matches Ok(ps) ==> exists|scan: DirectoryScan| #[trigger] call_ensures(*walk, (&self.config,), Ok::<DirectoryScan, E>(scan))
                && self.details_found(scan, *is_repo, *file_matches, *present, ps@),
            r matches Err(SearchError::Probe(e)) ==> self.search_fails(*walk, *is_repo, *file_matches, e),
    {
        match self.check_search_dirs(is_dir) {
            Ok(()) => {},
            Err(e) => return Err(SearchError::Search(e)),
        }
        let scan = match walk(&self.config) {
            Ok(s) => s,
            Err(e) => return Err(SearchError::Probe(e)),
        };
        match self.project_details_of(&scan, is_repo, file_matches, present) {
            Ok(ps) => Ok(ps),
            Err(e) => Err(SearchError::Probe(e)),
        }
    }

    /// The whole search for project roots: as [`ProjectFinder::find_project_details`],
    /// keeping only the roots, ordered by path; with a result limit of `m`,
    /// only the first `m` of them.
    pub fn find_projects<E, D, W, G, M, X>(&self, is_dir: &D, walk: &W, is_repo: &G, file_matches: &M, present: &X) -> (r: Result<Vec<PathName>, SearchError<E>>)
        where
            D: Fn(&PathName) -> bool,
            W: Fn(&Config) -> Result<DirectoryScan, E>,
            G: Fn(&PathName) -> Result<bool, E>,
            M: Fn(&PathName, ContentTest) -> Result<bool, E>,
            X: Fn(&PathName) -> bool,
        requires
            forall|p: &PathName| is_dir.requires((p,)),
            forall|c: &Config| walk.requires((c,)),
            forall|p: &PathName| is_repo.requires((p,)),
            forall|p: &PathName, t: ContentTest| file_matches.requires((p, t)),
            forall|p: &PathName| present.requires((p,)),
        ensures
            match r {
                Err(SearchError::Search(e)) => e matches Error::PathNotFound(p) && self.first_missing(*is_dir, p@),
                _ => self.all_present(*is_dir),
            },
            r matches Ok(roots) ==> exists|scan: DirectoryScan| #[trigger] call_ensures(*walk, (&self.config,), Ok::<DirectoryScan, E>(scan))
                && self.roots_found(scan, *is_repo, *file_matches, *present, path_views(roots@)),
            r matches Err(SearchError::Probe(e)) ==> self.search_fails(*walk, *is_repo, *file_matches, e),
    {
        match self.check_search_dirs(is_dir) {
            Ok(()) => {},
            Err(e) => return Err(SearchError::Search(e)),
        }
        let scan = match walk(&self.config) {
            Ok(s) => s,
            Err(e) => return Err(SearchError::Probe(e)),
        };
        match self.project_roots_of(&scan, is_repo, file_matches, present) {
            Ok(roots) => Ok(roots),
            Err(e) => Err(SearchError::Probe(e)),
        }
    }
}

/// Why a whole search failed.
#[derive(Debug)]
pub enum SearchError<E> {
    /// The library refused the search: a search directory is not one.
    Search(Error),
    /// The walk or a probe failed.
    Probe(E),
}

/// The nearest project among the ancestors two or more levels above `p` that
/// keep at most `m` components keeps at least `n` of them, when the one that
/// keeps `n` is a project.
proof fn lemma_landing_at_least(p: Parts, m: int, n: int, repos: Set<Parts>, cands: Set<Parts>)
    requires
        covers_at(p, n),
        n <= m <= p.len() - 2,
        is_project(p.subrange(0, n), repos, cands),
    ensures
        landing_len(p, m, repos, cands) >= n,
    decreases m - n,
{
    if m > n && !is_project(p.subrange(0, m), repos, cands) {
        lemma_landing_at_least(p, m - 1, n, repos, cands);
    }
}

/// A marker root two or more levels below a project is folded into it: it is
/// not a project of its own unless it is a repository.
pub proof fn lemma_deeper_descendant_folded(p: Parts, n: int, repos: Set<Parts>, cands: Set<Parts>)
    requires
        covers_at(p, n),
        is_project(p.subrange(0, n), repos, cands),
        !repos.contains(p),
    ensures
        !is_project(p, repos, cands),
{
    lemma_landing_at_least(p, p.len() - 2, n, repos, cands);
}

/// A marker root stays a project of its own when no project lies two or more
/// levels above it, even when its parent is a project: the members of a
/// monorepo stay visible.
pub proof fn lemma_direct_child_kept(p: Parts, repos: Set<Parts>, cands: Set<Parts>)
    requires
        cands.contains(p),
        forall|n: int| covers_at(p, n) ==> !is_project(#[trigger] p.subrange(0, n), repos, cands),
    ensures
        is_project(p, repos, cands),
{
    let hi = p.len() - 2;
    let lo = lowest_ancestor(p) - 1;
    if lo <= hi {
        lemma_landing_skip(p, hi, lo, repos, cands);
    }
}

} // verus!
