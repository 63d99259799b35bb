//! Ranking the projects a search found against the recorded history, and how
//! each result is shown.

use crate::config::OutputFormat;
use crate::finder::Project;
use crate::fs::{fails_at, probe_says};
use crate::history::{entry_views, ranks_before, EntryView, HistoryEntry};
use crate::path::{texts, Parts, PathName};
use crate::paths::{contract_tilde, contracted, parts_of};
use crate::sort::{arranges, in_order, lemma_map_same_items, sort_items, Ordered};
use vstd::prelude::*;

verus! {

/// One project as it is reported.
#[derive(Debug)]
pub struct ProjectResult {
    pub path: PathName,
    /// The raw score, in millionths of a point; 0 when untracked.
    pub score: u64,
    /// The frecency, in quarters of a millionth of a point; 0 when untracked.
    pub frecency: u128,
    /// When the project was last visited, in seconds since the Unix epoch;
    /// nothing when untracked.
    pub last_used: Option<u64>,
    pub pinned: bool,
    pub markers: Vec<String>,
}

/// What a [`ProjectResult`] reports, with paths and names as characters.
pub struct ResultView {
    pub path: Parts,
    pub score: u64,
    pub frecency: u128,
    pub last_used: Option<u64>,
    pub pinned: bool,
    pub markers: Seq<Seq<char>>,
}

impl View for ProjectResult {
    type V = ResultView;

    open spec fn view(&self) -> ResultView {
        ResultView {
            path: self.path@,
            score: self.score,
            frecency: self.frecency,
            last_used: self.last_used,
            pinned: self.pinned,
            markers: texts(self.markers@),
        }
    }
}

/// What the results of `rs` report, in order.
pub open spec fn result_views(rs: Seq<ProjectResult>) -> Seq<ResultView> {
    rs.map_values(|r: ProjectResult| r@)
}

/// The last index of `h` whose entry is for `path`, or -1 when none is: a
/// later entry for the same path overrides an earlier one.
pub open spec fn last_index(h: Seq<EntryView>, path: Parts) -> int {
    if exists|i: int| 0 <= i < h.len() && h[i].path == path && forall|j: int| i < j < h.len() ==> h[j].path != path {
        choose|i: int| 0 <= i < h.len() && h[i].path == path && forall|j: int| i < j < h.len() ==> h[j].path != path
    } else {
        -1
    }
}

/// How the project at `path` with `markers` is reported given the history
/// `h`: with its history entry's standing, or as untracked.
pub open spec fn result_of(path: Parts, markers: Seq<Seq<char>>, h: Seq<EntryView>) -> ResultView {
    let i = last_index(h, path);
    if i >= 0 {
        ResultView {
            path,
            score: h[i].score,
            frecency: h[i].frecency,
            last_used: Some(h[i].last_used_at),
            pinned: h[i].pinned,
            markers,
        }
    } else {
        ResultView { path, score: 0, frecency: 0, last_used: None, pinned: false, markers }
    }
}

/// When some entry of `h` is for `path`, one of them is the last.
proof fn lemma_last_index_exists(h: Seq<EntryView>, path: Parts, j: int)
    requires
        0 <= j < h.len(),
        h[j].path == path,
    ensures
        j <= last_index(h, path) < h.len(),
        h[last_index(h, path)].path == path,
        forall|k: int| last_index(h, path) < k < h.len() ==> h[k].path != path,
    decreases h.len() - j,
{
    if exists|k: int| j < k < h.len() && h[k].path == path {
        let k = choose|k: int| j < k < h.len() && h[k].path == path;
        lemma_last_index_exists(h, path, k);
    } else {
        assert(0 <= j < h.len() && h[j].path == path && forall|k: int| j < k < h.len() ==> h[k].path != path);
    }
}

/// A project is reported with the standing of the last history entry for
/// its path: that entry's score, frecency, last visit and pin, with its own
/// path and markers. A project with no entry is reported untracked: no score,
/// no frecency, no last visit, and unpinned.
pub proof fn lemma_result_from_last_entry(path: Parts, markers: Seq<Seq<char>>, h: Seq<EntryView>)
    ensures
        (exists|j: int| 0 <= j < h.len() && h[j].path == path) ==> exists|i: int| {
            &&& 0 <= i < h.len()
            &&& #[trigger] h[i].path == path
            &&& forall|k: int| i < k < h.len() ==> h[k].path != path
            &&& result_of(path, markers, h) == ResultView {
                path,
                score: h[i].score,
                frecency: h[i].frecency,
                last_used: Some(h[i].last_used_at),
                pinned: h[i].pinned,
                markers,
            }
        },
        (forall|j: int| 0 <= j < h.len() ==> h[j].path != path) ==> result_of(path, markers, h)
            == (ResultView { path, score: 0, frecency: 0, last_used: None, pinned: false, markers }),
{
    if exists|j: int| 0 <= j < h.len() && h[j].path == path {
        let j = choose|j: int| 0 <= j < h.len() && h[j].path == path;
        lemma_last_index_exists(h, path, j);
        let i = last_index(h, path);
        assert(h[i].path == path);
    } else {
        if last_index(h, path) >= 0 {
            let i = last_index(h, path);
            assert(0 <= i < h.len() && h[i].path == path);
        }
    }
}

/// How each of `ps` is reported given the history `h`, in order.
pub open spec fn results_of(ps: Seq<Project>, h: Seq<EntryView>) -> Seq<ResultView> {
    ps.map_values(|p: Project| result_of(p.path@, texts(p.markers@), h))
}

impl Ordered for ProjectResult {
    open spec fn before(&self, other: &Self) -> bool {
        ranks_before(self.pinned, self.frecency, self.path@, other.pinned, other.frecency, other.path@)
    }

    proof fn lemma_order(a: &Self, b: &Self, c: &Self) {
        crate::history::lemma_ranks_order(a.pinned, a.frecency, a.path@, b.pinned, b.frecency, b.path@, c.pinned, c.frecency, c.path@);
    }

    fn precedes(&self, other: &Self) -> (r: bool) {
        if self.pinned != other.pinned {
            self.pinned
        } else if self.frecency != other.frecency {
            self.frecency > other.frecency
        } else {
            self.path.less_than(&other.path)
        }
    }
}

/// Where the entry that counts for `path` is in `history`.
fn last_position(history: &[HistoryEntry], path: &PathName) -> (r: Option<usize>)
    ensures
        r matches Some(k) ==> k == last_index(entry_views(history@), path@),
        r is None ==> last_index(entry_views(history@), path@) == -1,
{
    let ghost h = entry_views(history@);
    let mut k = history.len();
    while k > 0
        invariant
            k <= history@.len(),
            h == entry_views(history@),
            forall|j: int| k <= j < h.len() ==> h[j].path != path@,
        decreases k,
    {
        if history[k - 1].path.same_as(path) {
            proof {
                let i = last_index(h, path@);
                assert(h[k - 1].path == path@);
                assert(0 <= i < h.len() && h[i].path == path@ && forall|j: int| i < j < h.len() ==> h[j].path != path@);
                if i < k - 1 {
                    assert(h[k - 1].path != path@);
                }
            }
            return Some(k - 1);
        }
        k = k - 1;
    }
    None
}

/// Copies of `v`.
fn copy_names(v: &Vec<String>) -> (r: Vec<String>)
    ensures
        texts(r@) == texts(v@),
{
    crate::config::copied_names(v)
}

/// The projects ranked for printing: pinned projects first, then the rest by
/// descending frecency, then by path, so untracked projects close the list in
/// path order. Each carries its history entry's standing, or none.
#[verifier::spinoff_prover]
pub fn rank_projects(projects: Vec<Project>, history: &[HistoryEntry]) -> (r: Vec<ProjectResult>)
    ensures
        in_order(r@),
        result_views(r@).to_multiset() == results_of(projects@, entry_views(history@)).to_multiset(),
        exists|perm: Seq<int>|
            #[trigger] arranges(r@, projects@.len(), perm) && forall|k: int|
                0 <= k < r@.len() ==> result_views(r@)[k] == results_of(projects@, entry_views(history@))[perm[k]],
{
    let ghost h = entry_views(history@);
    let mut results: Vec<ProjectResult> = Vec::new();
    let mut k: usize = 0;
    while k < projects.len()
        invariant
            k <= projects@.len(),
            h == entry_views(history@),
            results@.len() == k,
            result_views(results@) == results_of(projects@.take(k as int), h),
        decreases projects.len() - k,
    {
        let project = &projects[k];
        let result = match last_position(history, &project.path) {
            Some(i) => ProjectResult {
                path: project.path.duplicate(),
                score: history[i].score,
                frecency: history[i].frecency,
                last_used: Some(history[i].last_used_at),
                pinned: history[i].pinned,
                markers: copy_names(&project.markers),
            },
            None => ProjectResult {
                path: project.path.duplicate(),
                score: 0,
                frecency: 0,
                last_used: None,
                pinned: false,
                markers: copy_names(&project.markers),
            },
        };
        assert(result@ == result_of(projects@[k as int].path@, texts(projects@[k as int].markers@), h));
        let ghost before = results@;
        results.push(result);
        assert(result_views(results@) =~= results_of(projects@.take(k + 1), h)) by {
            assert(results@ == before.push(result));
            assert(result_views(results@) =~= result_views(before).push(result@));
            assert(results_of(projects@.take(k + 1), h) =~= results_of(projects@.take(k as int), h).push(result@));
        }
        k = k + 1;
    }
    assert(projects@.take(k as int) =~= projects@);
    let ghost unsorted = results@;
    let sorted = sort_items(results);
    proof {
        lemma_map_same_items(sorted@, unsorted, |r: ProjectResult| r@);
        let perm = choose|perm: Seq<int>|
            #[trigger] arranges(sorted@, unsorted.len(), perm) && forall|k: int|
                0 <= k < sorted@.len() ==> sorted@[k] == unsorted[perm[k]];
        assert forall|k: int| 0 <= k < sorted@.len() implies result_views(sorted@)[k]
            == results_of(projects@, h)[perm[k]] by {
            assert(sorted@[k] == unsorted[perm[k]]);
            assert(result_views(unsorted)[perm[k]] == unsorted[perm[k]]@);
        }
        assert(arranges(sorted@, projects@.len(), perm));
    }
    sorted
}

/// The paths of `ps`.
pub open spec fn project_paths(ps: Seq<Project>) -> Seq<Parts> {
    ps.map_values(|p: Project| p.path@)
}

/// Some entry of `history` has the path of `a`, and a later one the path of
/// `b`.
pub open spec fn entries_in_order(history: Seq<HistoryEntry>, a: Project, b: Project) -> bool {
    exists|i1: int, i2: int|
        0 <= i1 < i2 < history.len() && #[trigger] history[i1].path@ == a.path@ && #[trigger] history[i2].path@ == b.path@
}

/// Some entry of `history` before index `i` has the path of `a`.
pub open spec fn entry_before(history: Seq<HistoryEntry>, a: Project, i: int) -> bool {
    exists|j: int| 0 <= j < i && #[trigger] history[j].path@ == a.path@
}

/// The projects of `ps` from index `from` on come from entries of `history`
/// in the same order.
pub open spec fn in_history_order(ps: Seq<Project>, from: int, history: Seq<HistoryEntry>) -> bool {
    forall|k1: int, k2: int| from <= k1 < k2 < ps.len() ==> #[trigger] entries_in_order(history, ps[k1], ps[k2])
}

/// Appending a project whose path comes from the entry at `i` keeps `ps` in
/// history order when every earlier one comes from an entry before `i`.
proof fn lemma_history_order_push(ps: Seq<Project>, p: Project, from: int, i: int, history: Seq<HistoryEntry>)
    requires
        0 <= from,
        in_history_order(ps, from, history),
        0 <= i < history.len(),
        history[i].path@ == p.path@,
        forall|k: int| from <= k < ps.len() ==> #[trigger] entry_before(history, ps[k], i),
    ensures
        in_history_order(ps.push(p), from, history),
{
    let qs = ps.push(p);
    assert forall|k1: int, k2: int| from <= k1 < k2 < qs.len() implies #[trigger] entries_in_order(history, qs[k1], qs[k2]) by {
        assert(qs[k1] == ps[k1]);
        if k2 < ps.len() {
            assert(qs[k2] == ps[k2]);
            assert(entries_in_order(history, ps[k1], ps[k2]));
        } else {
            assert(entry_before(history, ps[k1], i));
            let j1 = choose|j: int| 0 <= j < i && #[trigger] history[j].path@ == ps[k1].path@;
            assert(history[j1].path@ == qs[k1].path@ && history[i].path@ == qs[k2].path@);
        }
    }
}

/// Adds the pinned projects of `history` that `projects` lacks, each with no
/// markers, in history order: a pin is listed whether or not the search found
/// it, unless its directory no longer exists, as `is_dir` reports. A failure
/// of `is_dir` on a pinned path is the error.
#[verifier::spinoff_prover]
pub fn include_pinned<E, F>(projects: &mut Vec<Project>, history: &[HistoryEntry], is_dir: &F) -> (r: Result<(), E>)
    where
        F: Fn(&PathName) -> Result<bool, E>,
    requires
        forall|p: &PathName| is_dir.requires((p,)),
    ensures
        r is Ok ==> {
            let before = old(projects)@;
            let after = final(projects)@;
            &&& before.len() <= after.len()
            &&& forall|k: int| 0 <= k < before.len() ==> (#[trigger] after[k]).path@ == before[k].path@
                && texts(after[k].markers@) == texts(before[k].markers@)
            &&& forall|k: int| before.len() <= k < after.len() ==> {
                &&& (#[trigger] after[k]).markers@.len() == 0
                &&& exists|i: int| 0 <= i < history@.len() && history@[i].pinned && #[trigger] history@[i].path@ == after[k].path@
                &&& !project_paths(after).take(k).contains(after[k].path@)
                &&& probe_says(*is_dir, after[k].path@, true)
            }
            &&& forall|i: int| 0 <= i < history@.len() && history@[i].pinned ==>
                project_paths(after).contains(#[trigger] history@[i].path@) || probe_says(*is_dir, history@[i].path@, false)
            &&& in_history_order(after, before.len() as int, history@)
        },
        r matches Err(e) ==> exists|i: int| 0 <= i < history@.len() && history@[i].pinned && fails_at(*is_dir, #[trigger] history@[i].path@, e),
{
    let ghost before = projects@;
    let mut i: usize = 0;
    while i < history.len()
        invariant
            i <= history@.len(),
            forall|p: &PathName| is_dir.requires((p,)),
            before.len() <= projects@.len(),
            forall|k: int| 0 <= k < before.len() ==> (#[trigger] projects@[k]).path@ == before[k].path@
                && texts(projects@[k].markers@) == texts(before[k].markers@),
            forall|k: int| before.len() <= k < projects@.len() ==> {
                &&& (#[trigger] projects@[k]).markers@.len() == 0
                &&& exists|j: int| 0 <= j < i && history@[j].pinned && #[trigger] history@[j].path@ == projects@[k].path@
                &&& !project_paths(projects@).take(k).contains(projects@[k].path@)
                &&& probe_says(*is_dir, projects@[k].path@, true)
            },
            forall|j: int| 0 <= j < i && history@[j].pinned ==>
                project_paths(projects@).contains(#[trigger] history@[j].path@) || probe_says(*is_dir, history@[j].path@, false),
            in_history_order(projects@, before.len() as int, history@),
        decreases history.len() - i,
    {
        let entry = &history[i];
        if entry.pinned {
            let mut known = false;
            let mut k: usize = 0;
            while k < projects.len()
                invariant
                    k <= projects@.len(),
                    known == project_paths(projects@).take(k as int).contains(entry.path@),
                decreases projects.len() - k,
            {
                if projects[k].path.same_as(&entry.path) {
                    known = true;
                }
                proof {
                    let t = project_paths(projects@).take(k + 1);
                    assert(t =~= project_paths(projects@).take(k as int).push(projects@[k as int].path@));
                    if project_paths(projects@).take(k as int).contains(entry.path@) {
                        let m = choose|m: int| 0 <= m < k && project_paths(projects@).take(k as int)[m] == entry.path@;
                        assert(t[m] == entry.path@);
                    }
                    if projects@[k as int].path@ == entry.path@ {
                        assert(t[k as int] == entry.path@);
                    }
                }
                k = k + 1;
            }
            assert(project_paths(projects@).take(k as int) =~= project_paths(projects@));
            if !known {
                let present = match is_dir(&entry.path) {
                    Ok(v) => v,
                    Err(e) => {
                        assert(fails_at(*is_dir, history@[i as int].path@, e));
                        return Err(e);
                    },
                };
                assert(probe_says(*is_dir, entry.path@, present));
                if present {
                    let ghost prior = projects@;
                    projects.push(Project { path: entry.path.duplicate(), markers: Vec::new() });
                    proof {
                        let n = prior.len() as int;
                        assert(projects@ == prior.push(projects@[n]));
                        assert(project_paths(projects@) =~= project_paths(prior).push(entry.path@));
                        assert(project_paths(projects@).take(n) =~= project_paths(prior));
                        assert(history@[i as int].path@ == projects@[n].path@);
                        assert forall|k2: int| before.len() <= k2 < projects@.len() implies {
                            &&& (#[trigger] projects@[k2]).markers@.len() == 0
                            &&& exists|j: int| 0 <= j < i + 1 && history@[j].pinned && #[trigger] history@[j].path@ == projects@[k2].path@
                            &&& !project_paths(projects@).take(k2).contains(projects@[k2].path@)
                            &&& probe_says(*is_dir, projects@[k2].path@, true)
                        } by {
                            if k2 < n {
                                assert(projects@[k2] == prior[k2]);
                                assert(project_paths(projects@).take(k2) =~= project_paths(prior).take(k2));
                            }
                        }
                        assert forall|k: int| before.len() <= k < prior.len() implies #[trigger] entry_before(history@, prior[k], i as int) by {
                            assert(prior[k].markers@.len() == 0);
                            let j = choose|j: int| 0 <= j < i && history@[j].pinned && #[trigger] history@[j].path@ == prior[k].path@;
                            assert(history@[j].path@ == prior[k].path@);
                        }
                        lemma_history_order_push(prior, projects@[n], before.len() as int, i as int, history@);
                        assert(in_history_order(projects@, before.len() as int, history@));
                        assert forall|j: int| 0 <= j < i + 1 && history@[j].pinned implies
                            project_paths(projects@).contains(#[trigger] history@[j].path@) || probe_says(*is_dir, history@[j].path@, false) by {
                            if j < i && project_paths(prior).contains(history@[j].path@) {
                                let m = choose|m: int| 0 <= m < prior.len() && project_paths(prior)[m] == history@[j].path@;
                                assert(project_paths(projects@)[m] == history@[j].path@);
                            }
                            if j == i {
                                assert(project_paths(projects@)[n] == history@[j].path@);
                            }
                        }
                    }
                }
            }
        }
        i = i + 1;
    }
    Ok(())
}

/// How `path` is shown in `format`: shortened under `home` for plain paths,
/// as it is for JSON and NUL-separated output.
pub fn shown_path(path: &PathName, format: OutputFormat, home: Option<&PathName>) -> (r: PathName)
    ensures
        r@ == if format == OutputFormat::Path {
            contracted(path@, parts_of(home))
        } else {
            path@
        },
{
    match format {
        OutputFormat::Path => contract_tilde(path, home),
        _ => path.duplicate(),
    }
}

/// Ranked results list every pinned project before every unpinned one, and
/// among the unpinned ones the more frecent first, so recorded projects come
/// before untracked ones, which score nothing.
pub proof fn lemma_ranking_order(rs: Seq<ProjectResult>)
    requires
        in_order(rs),
    ensures
        forall|i: int, j: int| 0 <= i < j < rs.len() && (#[trigger] rs[j]).pinned ==> (#[trigger] rs[i]).pinned,
        forall|i: int, j: int| 0 <= i < j < rs.len() && !(#[trigger] rs[i]).pinned ==> !(#[trigger] rs[j]).pinned && rs[i].frecency >= rs[j].frecency,
{
    assert forall|i: int, j: int| 0 <= i < j < rs.len() && (#[trigger] rs[j]).pinned implies (#[trigger] rs[i]).pinned by {
        assert(!rs[j].before(&rs[i]));
    }
    assert forall|i: int, j: int| 0 <= i < j < rs.len() && !(#[trigger] rs[i]).pinned implies !(#[trigger] rs[j]).pinned && rs[i].frecency >= rs[j].frecency by {
        assert(!rs[j].before(&rs[i]));
    }
}

} // verus!
