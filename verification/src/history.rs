//! Recorded project visits, and the frecency they earn.
//!
//! A project's rank combines how often it was visited with how recently, so a
//! project used twice this hour outranks one used ten times last month. Scores
//! are capped in aggregate and aged down when they reach the cap, which keeps
//! the history bounded and lets old favourites fall away.
//!
//! Pinning opts a project out of that drift: a pinned project ranks above every
//! unpinned one whatever its frecency, and aging never drops it.
//!
//! Scores are held in millionths of a point, so one visit is worth
//! [`SCORE_UNIT`]. Frecency is held in quarters of that unit, which makes every
//! recency weight a whole number.

use crate::error::Error;
use crate::order::path_lt;
use crate::path::{Parts, PathName};
use crate::sort::{arranges, in_order, sort_items, Ordered};
use vstd::prelude::*;

verus! {

/// The only history layout this library reads.
pub const HISTORY_VERSION: u8 = 1;

/// One point of score: what a single visit earns.
pub const SCORE_UNIT: u64 = 1_000_000;

/// The lowest score worth keeping. Anything below it is dropped when aging.
pub const MINIMUM_SCORE: u64 = 1_000_000;

/// Above this total, every score is scaled down.
pub const MAX_TOTAL_SCORE: u64 = 10_000_000_000;

/// The total that aging scales the scores down to.
pub const AGED_TOTAL_SCORE: u64 = 9_000_000_000;

/// Seconds in an hour.
pub const HOUR: u64 = 3600;

/// Seconds in a day.
pub const DAY: u64 = 86_400;

/// Seconds in a week.
pub const WEEK: u64 = 604_800;

/// One project's recorded use.
#[derive(Debug)]
pub struct ProjectUsage {
    pub path: PathName,
    /// The raw score, in millionths of a point.
    pub score: u64,
    /// When the project was last visited, in seconds since the Unix epoch.
    pub last_accessed: u64,
    /// Whether the project is held above every unpinned one.
    pub pinned: bool,
}

/// What a [`ProjectUsage`] records, with the path as its components.
pub struct UsageView {
    pub path: Parts,
    pub score: u64,
    pub last_accessed: u64,
    pub pinned: bool,
}

impl View for ProjectUsage {
    type V = UsageView;

    open spec fn view(&self) -> UsageView {
        UsageView { path: self.path@, score: self.score, last_accessed: self.last_accessed, pinned: self.pinned }
    }
}

/// Every project seen being visited, and where the history is kept.
#[derive(Debug)]
pub struct History {
    pub path: PathName,
    pub projects: Vec<ProjectUsage>,
}

/// What each recorded project's usage says, in order.
pub open spec fn usages(ps: Seq<ProjectUsage>) -> Seq<UsageView> {
    ps.map_values(|u: ProjectUsage| u@)
}

impl History {
    /// What each recorded project's usage says, in order.
    pub open spec fn records(&self) -> Seq<UsageView> {
        usages(self.projects@)
    }
}

/// A usage that has not been pinned.
pub open spec fn fresh_usage(path: Parts, score: u64, at: u64) -> UsageView {
    UsageView { path, score, last_accessed: at, pinned: false }
}

/// The sum of the scores in `s`.
pub open spec fn total_score(s: Seq<UsageView>) -> int
    decreases s.len(),
{
    if s.len() == 0 {
        0
    } else {
        total_score(s.drop_last()) + s.last().score
    }
}

/// `u` with its score scaled by `AGED_TOTAL_SCORE / total`, rounded down.
pub open spec fn scaled(u: UsageView, total: int) -> UsageView {
    UsageView {
        path: u.path,
        score: (u.score * AGED_TOTAL_SCORE / total) as u64,
        last_accessed: u.last_accessed,
        pinned: u.pinned,
    }
}

/// Aging keeps a usage that is pinned or still scores at least the minimum.
pub open spec fn survives(u: UsageView) -> bool {
    u.pinned || u.score >= MINIMUM_SCORE
}

/// Every usage of `s` scaled against `total`, without those that no longer
/// survive.
pub open spec fn scale_all(s: Seq<UsageView>, total: int) -> Seq<UsageView>
    decreases s.len(),
{
    if s.len() == 0 {
        Seq::empty()
    } else {
        let rest = scale_all(s.drop_last(), total);
        let u = scaled(s.last(), total);
        if survives(u) {
            rest.push(u)
        } else {
            rest
        }
    }
}

/// `s` after aging: unchanged while its total is at most `MAX_TOTAL_SCORE`,
/// otherwise every score scaled so that they total about `AGED_TOTAL_SCORE`,
/// and the unpinned usages below the minimum dropped.
pub open spec fn aged(s: Seq<UsageView>) -> Seq<UsageView> {
    if total_score(s) <= MAX_TOTAL_SCORE {
        s
    } else {
        scale_all(s, total_score(s))
    }
}

/// The first index in `s` holding a usage of `path`, or -1 when none does.
pub open spec fn first_index(s: Seq<UsageView>, path: Parts) -> int {
    if exists|i: int| 0 <= i < s.len() && s[i].path == path && forall|j: int| 0 <= j < i ==> s[j].path != path {
        choose|i: int| 0 <= i < s.len() && s[i].path == path && forall|j: int| 0 <= j < i ==> s[j].path != path
    } else {
        -1
    }
}

/// A score one visit higher, held at the largest representable score.
pub open spec fn bumped(score: u64) -> u64 {
    if score + SCORE_UNIT <= u64::MAX {
        (score + SCORE_UNIT) as u64
    } else {
        u64::MAX
    }
}

/// `s` once `path` was visited at `now`: its first usage scores one point
/// more and was last used now, or a new usage starts at one point.
pub open spec fn visited(s: Seq<UsageView>, path: Parts, now: u64) -> Seq<UsageView> {
    let i = first_index(s, path);
    if i >= 0 {
        s.update(i, UsageView { path: s[i].path, score: bumped(s[i].score), last_accessed: now, pinned: s[i].pinned })
    } else {
        s.push(fresh_usage(path, SCORE_UNIT, now))
    }
}

/// The seconds since `last`, as seen at `now`; none when `last` lies ahead.
pub open spec fn elapsed(now: u64, last: u64) -> u64 {
    if now >= last {
        (now - last) as u64
    } else {
        0
    }
}

/// The recency weight for a project last used `age` seconds ago, in quarters:
/// four times the score within the hour, twice within the day, half within
/// the week, a quarter after that.
pub open spec fn weight_quarters(age: u64) -> u128 {
    if age < HOUR {
        16
    } else if age < DAY {
        8
    } else if age < WEEK {
        2
    } else {
        1
    }
}

/// The frecency of `u` at `now`, in quarters of a score unit.
pub open spec fn frecency_of(u: UsageView, now: u64) -> u128 {
    (u.score * weight_quarters(elapsed(now, u.last_accessed))) as u128
}

impl ProjectUsage {
    /// A usage of `path` with `score`, last visited at `last_accessed`.
    pub fn new(path: &PathName, score: u64, last_accessed: u64) -> (r: ProjectUsage)
        ensures
            r@ == fresh_usage(path@, score, last_accessed),
    {
        ProjectUsage { path: path.duplicate(), score, last_accessed, pinned: false }
    }

    /// Weighs the raw score by how recently the project was used, in quarters
    /// of a score unit.
    pub fn frecency(&self, now: u64) -> (r: u128)
        ensures
            r == frecency_of(self@, now),
    {
        let age = now.saturating_sub(self.last_accessed);
        let quarters: u128 = if age < HOUR {
            16
        } else if age < DAY {
            8
        } else if age < WEEK {
            2
        } else {
            1
        };
        assert(self.score * quarters <= u64::MAX * 16) by (nonlinear_arith)
            requires
                quarters <= 16,
        ;
        (self.score as u128) * quarters
    }
}

/// Sums the scores of `ps`.
fn total_of(ps: &Vec<ProjectUsage>) -> (t: u128)
    ensures
        t == total_score(usages(ps@)),
{
    let mut t: u128 = 0;
    let mut k: usize = 0;
    while k < ps.len()
        invariant
            k <= ps@.len(),
            t == total_score(usages(ps@).take(k as int)),
            t <= k * 0xFFFF_FFFF_FFFF_FFFF,
        decreases ps.len() - k,
    {
        assert(usages(ps@).take(k + 1).drop_last() =~= usages(ps@).take(k as int));
        t = t + ps[k].score as u128;
        k = k + 1;
    }
    assert(usages(ps@).take(k as int) =~= usages(ps@));
    t
}

impl History {
    /// An empty history kept at `path`.
    pub fn new(path: PathName) -> (r: History)
        ensures
            r.path@ == path@,
            r.records().len() == 0,
    {
        History { path, projects: Vec::new() }
    }

    /// Where the first usage of `path` is.
    pub fn position_of(&self, path: &PathName) -> (r: Option<usize>)
        ensures
            r matches Some(k) ==> k == first_index(self.records(), path@),
            r is None ==> first_index(self.records(), path@) == -1,
    {
        let ghost s = self.records();
        let mut k: usize = 0;
        while k < self.projects.len()
            invariant
                k <= self.projects@.len(),
                s == self.records(),
                forall|j: int| 0 <= j < k ==> s[j].path != path@,
            decreases self.projects.len() - k,
        {
            if self.projects[k].path.same_as(path) {
                assert(s[k as int].path == path@);
                proof {
                    let i = first_index(s, path@);
                    assert(0 <= i < s.len() && s[i].path == path@ && forall|j: int| 0 <= j < i ==> s[j].path != path@);
                    if i < k {
                    } else if i > k {
                        assert(s[k as int].path != path@);
                    }
                }
                return Some(k);
            }
            k = k + 1;
        }
        None
    }

    /// Scales every score down once they total more than [`MAX_TOTAL_SCORE`],
    /// dropping the unpinned projects that fall below [`MINIMUM_SCORE`].
    #[verifier::spinoff_prover]
    pub fn age(&mut self)
        ensures
            final(self).records() == aged(old(self).records()),
            final(self).path == old(self).path,
    {
        let ghost s = self.records();
        let total = total_of(&self.projects);
        if total <= MAX_TOTAL_SCORE as u128 {
            return;
        }
        let mut rest: Vec<ProjectUsage> = Vec::new();
        std::mem::swap(&mut rest, &mut self.projects);
        assert(usages(rest@) == s);
        let mut kept: Vec<ProjectUsage> = Vec::new();
        let mut k: usize = 0;
        let n = rest.len();
        while rest.len() > 0
            invariant
                n == s.len(),
                k + rest@.len() == n,
                usages(rest@) == s.skip(k as int),
                usages(kept@) == scale_all(s.take(k as int), total as int),
                total == total_score(s),
                total > MAX_TOTAL_SCORE,
            decreases rest.len(),
        {
            let ghost before = rest@;
            let mut u = rest.remove(0);
            assert(u@ == s[k as int]) by {
                assert(usages(before)[0] == s.skip(k as int)[0]);
            }
            assert(usages(rest@) =~= s.skip(k + 1)) by {
                assert(rest@ == before.remove(0));
                assert forall|i: int| 0 <= i < rest@.len() implies usages(rest@)[i] == s.skip(k + 1)[i] by {
                    assert(rest@[i] == before[i + 1]);
                    assert(usages(before)[i + 1] == s.skip(k as int)[i + 1]);
                }
            }
            assert(u.score * AGED_TOTAL_SCORE <= u64::MAX * AGED_TOTAL_SCORE) by (nonlinear_arith);
            let product = (u.score as u128) * (AGED_TOTAL_SCORE as u128);
            let next = product / total;
            assert(next <= u.score) by (nonlinear_arith)
                requires
                    next == product / total,
                    product == u.score * AGED_TOTAL_SCORE,
                    total > AGED_TOTAL_SCORE,
            {
                assert(product <= u.score * total);
            }
            u.score = next as u64;
            assert(s.take(k + 1).drop_last() =~= s.take(k as int));
            assert(u@ == scaled(s[k as int], total as int));
            let ghost kept_before = usages(kept@);
            if u.pinned || u.score >= MINIMUM_SCORE {
                kept.push(u);
                assert(usages(kept@) =~= kept_before.push(u@));
            }
            k = k + 1;
        }
        assert(s.take(k as int) =~= s);
        self.projects = kept;
    }

    /// Records a visit to `path` at `now`: its score goes up by one point, or
    /// it enters the history at one point; then the history ages.
    pub fn record_at(&mut self, path: &PathName, now: u64)
        ensures
            final(self).records() == aged(visited(old(self).records(), path@, now)),
            final(self).path == old(self).path,
    {
        let ghost s = self.records();
        match self.position_of(path) {
            Some(k) => {
                let mut u = self.projects.remove(k);
                u.score = u.score.saturating_add(SCORE_UNIT);
                u.last_accessed = now;
                self.projects.insert(k, u);
                assert(self.records() =~= visited(s, path@, now));
            },
            None => {
                self.projects.push(ProjectUsage::new(path, SCORE_UNIT, now));
                assert(self.records() =~= visited(s, path@, now));
            },
        }
        self.age();
    }
}


/// A requested change to a project's raw score, in millionths of a point.
#[derive(Debug, Clone, Copy)]
pub enum ScoreChange {
    /// Replace the score, creating the entry when it is missing.
    SetTo(u64),
    /// Add to the score of an existing entry; it is retired below one point.
    Adjust(i64),
    /// Drop the entry.
    Remove,
}

/// `u` with score `score`.
pub open spec fn rescored(u: UsageView, score: u64) -> UsageView {
    UsageView { path: u.path, score, last_accessed: u.last_accessed, pinned: u.pinned }
}

/// `u`, pinned or not as `pinned` says.
pub open spec fn repinned(u: UsageView, pinned: bool) -> UsageView {
    UsageView { path: u.path, score: u.score, last_accessed: u.last_accessed, pinned }
}

/// The usages of `s` before aging once `change` was made to `path` at `now`,
/// or nothing when the change is refused.
pub open spec fn changed(s: Seq<UsageView>, path: Parts, change: ScoreChange, now: u64) -> Option<Seq<UsageView>> {
    let i = first_index(s, path);
    match change {
        ScoreChange::SetTo(score) => if score < MINIMUM_SCORE {
            None
        } else if i >= 0 {
            Some(s.update(i, rescored(s[i], score)))
        } else {
            Some(s.push(fresh_usage(path, score, now)))
        },
        ScoreChange::Adjust(delta) => if i < 0 {
            None
        } else if s[i].score + delta < MINIMUM_SCORE {
            Some(s.remove(i))
        } else if s[i].score + delta > u64::MAX {
            None
        } else {
            Some(s.update(i, rescored(s[i], (s[i].score + delta) as u64)))
        },
        ScoreChange::Remove => if i < 0 {
            None
        } else {
            Some(s.remove(i))
        },
    }
}

/// `e` is the error a refused `change` to `path` reports: the missing entry,
/// or the score that cannot be held.
pub open spec fn refusal(e: Error, s: Seq<UsageView>, path: Parts, change: ScoreChange) -> bool {
    let i = first_index(s, path);
    match change {
        ScoreChange::SetTo(score) => e matches Error::InvalidScore(v) && v == score,
        ScoreChange::Adjust(delta) => if i < 0 {
            e matches Error::HistoryEntryNotFound(q) && q@ == path
        } else {
            e matches Error::InvalidScore(v) && v == s[i].score + delta
        },
        ScoreChange::Remove => e matches Error::HistoryEntryNotFound(q) && q@ == path,
    }
}

/// The usages of `s` after pinning (`pinned`) or unpinning `path` at `now`:
/// the flag of its first usage changes, and pinning a project never seen
/// records it at the minimum score; nothing when unpinning an unknown project.
pub open spec fn pin_changed(s: Seq<UsageView>, path: Parts, pinned: bool, now: u64) -> Option<Seq<UsageView>> {
    let i = first_index(s, path);
    if i >= 0 {
        Some(s.update(i, repinned(s[i], pinned)))
    } else if pinned {
        Some(s.push(UsageView { path, score: MINIMUM_SCORE, last_accessed: now, pinned: true }))
    } else {
        None
    }
}

/// The usages of `s` whose flag in `keep` is set, in order.
pub open spec fn kept_where(s: Seq<UsageView>, keep: Seq<bool>) -> Seq<UsageView>
    decreases s.len(),
{
    if s.len() == 0 || keep.len() != s.len() {
        Seq::empty()
    } else if keep.last() {
        kept_where(s.drop_last(), keep.drop_last()).push(s.last())
    } else {
        kept_where(s.drop_last(), keep.drop_last())
    }
}

impl History {
    /// Checks what was read back from a history file: only the current layout
    /// is accepted.
    pub fn from_stored(path: PathName, version: u8, projects: Vec<ProjectUsage>) -> (r: Result<History, Error>)
        ensures
            version == HISTORY_VERSION ==> (r matches Ok(h) && h.path@ == path@ && h.projects@ == projects@),
            version != HISTORY_VERSION ==> (r matches Err(Error::UnsupportedHistoryVersion { path: p, version: v }) && p@ == path@ && v == version),
    {
        if version != HISTORY_VERSION {
            return Err(Error::UnsupportedHistoryVersion { path, version });
        }
        Ok(History { path, projects })
    }

    /// Puts `u` back at `k` after its fields were changed.
    fn replace_at(&mut self, k: usize, u: ProjectUsage)
        requires
            k < old(self).projects@.len(),
        ensures
            final(self).records() == old(self).records().update(k as int, u@),
            final(self).path == old(self).path,
    {
        let ghost s = self.records();
        let _ = self.projects.remove(k);
        self.projects.insert(k, u);
        assert(self.records() =~= s.update(k as int, u@));
    }

    /// Applies a score change, then ages the history. A refused change leaves
    /// the history as it was.
    #[verifier::spinoff_prover]
    pub fn update(&mut self, path: &PathName, change: ScoreChange, now: u64) -> (r: Result<(), Error>)
        ensures
            final(self).path == old(self).path,
            match changed(old(self).records(), path@, change, now) {
                Some(t) => r is Ok && final(self).records() == aged(t),
                None => r matches Err(e) && refusal(e, old(self).records(), path@, change)
                    && final(self).records() == old(self).records(),
            },
    {
        let ghost s = self.records();
        match change {
            ScoreChange::SetTo(score) => {
                if score < MINIMUM_SCORE {
                    return Err(Error::InvalidScore(score as i128));
                }
                match self.position_of(path) {
                    Some(k) => {
                        let u = ProjectUsage {
                            path: self.projects[k].path.duplicate(),
                            score,
                            last_accessed: self.projects[k].last_accessed,
                            pinned: self.projects[k].pinned,
                        };
                        self.replace_at(k, u);
                        assert(self.records() =~= s.update(k as int, rescored(s[k as int], score)));
                    },
                    None => {
                        self.projects.push(ProjectUsage::new(path, score, now));
                        assert(self.records() =~= s.push(fresh_usage(path@, score, now)));
                    },
                }
            },
            ScoreChange::Adjust(delta) => {
                let k = match self.position_of(path) {
                    Some(k) => k,
                    None => return Err(Error::HistoryEntryNotFound(path.duplicate())),
                };
                let sum: i128 = self.projects[k].score as i128 + delta as i128;
                if sum < MINIMUM_SCORE as i128 {
                    let _ = self.projects.remove(k);
                    assert(self.records() =~= s.remove(k as int));
                } else if sum > u64::MAX as i128 {
                    return Err(Error::InvalidScore(sum));
                } else {
                    let u = ProjectUsage {
                        path: self.projects[k].path.duplicate(),
                        score: sum as u64,
                        last_accessed: self.projects[k].last_accessed,
                        pinned: self.projects[k].pinned,
                    };
                    self.replace_at(k, u);
                    assert(self.records() =~= s.update(k as int, rescored(s[k as int], sum as u64)));
                }
            },
            ScoreChange::Remove => {
                let k = match self.position_of(path) {
                    Some(k) => k,
                    None => return Err(Error::HistoryEntryNotFound(path.duplicate())),
                };
                let _ = self.projects.remove(k);
                assert(self.records() =~= s.remove(k as int));
            },
        }
        self.age();
        Ok(())
    }

    /// Pins or unpins `path`. A project only reaches history by being pinned
    /// when it has never been visited, so it starts at the score one visit
    /// would have earned.
    pub fn set_pinned(&mut self, path: &PathName, pinned: bool, now: u64) -> (r: Result<(), Error>)
        ensures
            final(self).path == old(self).path,
            match pin_changed(old(self).records(), path@, pinned, now) {
                Some(t) => r is Ok && final(self).records() == t,
                None => (r matches Err(Error::HistoryEntryNotFound(q)) && q@ == path@)
                    && final(self).records() == old(self).records(),
            },
    {
        let ghost s = self.records();
        match self.position_of(path) {
            Some(k) => {
                let u = ProjectUsage {
                    path: self.projects[k].path.duplicate(),
                    score: self.projects[k].score,
                    last_accessed: self.projects[k].last_accessed,
                    pinned,
                };
                self.replace_at(k, u);
                assert(self.records() =~= s.update(k as int, repinned(s[k as int], pinned)));
            },
            None => {
                if !pinned {
                    return Err(Error::HistoryEntryNotFound(path.duplicate()));
                }
                let u = ProjectUsage { path: path.duplicate(), score: MINIMUM_SCORE, last_accessed: now, pinned: true };
                self.projects.push(u);
                assert(self.records() =~= s.push(UsageView { path: path@, score: MINIMUM_SCORE, last_accessed: now, pinned: true }));
            },
        }
        Ok(())
    }

    /// Pins a project so it ranks above every unpinned one, recording it at
    /// `now` first if history has not seen it.
    pub fn pin(&mut self, path: &PathName, now: u64) -> (r: Result<(), Error>)
        ensures
            final(self).path == old(self).path,
            r is Ok,
            Some(final(self).records()) == pin_changed(old(self).records(), path@, true, now),
    {
        self.set_pinned(path, true, now)
    }

    /// Unpins a project, leaving its score and its last visit alone; an error
    /// when the project is not in history.
    pub fn unpin(&mut self, path: &PathName) -> (r: Result<(), Error>)
        ensures
            final(self).path == old(self).path,
            match pin_changed(old(self).records(), path@, false, 0) {
                Some(t) => r is Ok && final(self).records() == t,
                None => (r matches Err(Error::HistoryEntryNotFound(q)) && q@ == path@)
                    && final(self).records() == old(self).records(),
            },
    {
        self.set_pinned(path, false, 0)
    }

    /// Removes every entry.
    pub fn clear(&mut self)
        ensures
            final(self).path == old(self).path,
            final(self).records().len() == 0,
    {
        self.projects = Vec::new();
    }

    /// Keeps only the entries whose project still exists, as `exists` reports
    /// for each entry in order.
    #[verifier::spinoff_prover]
    pub fn prune(&mut self, exists: &Vec<bool>)
        requires
            exists@.len() == old(self).projects@.len(),
        ensures
            final(self).path == old(self).path,
            final(self).records() == kept_where(old(self).records(), exists@),
    {
        let ghost s = self.records();
        let mut rest: Vec<ProjectUsage> = Vec::new();
        std::mem::swap(&mut rest, &mut self.projects);
        assert(usages(rest@) == s);
        let mut kept: Vec<ProjectUsage> = Vec::new();
        let mut k: usize = 0;
        let n = rest.len();
        assert(s.take(0) =~= Seq::<UsageView>::empty());
        while rest.len() > 0
            invariant
                n == s.len() == exists@.len(),
                k + rest@.len() == n,
                usages(rest@) == s.skip(k as int),
                usages(kept@) == kept_where(s.take(k as int), exists@.take(k as int)),
            decreases rest.len(),
        {
            let ghost before = rest@;
            let u = rest.remove(0);
            assert(u@ == s[k as int]) by {
                assert(usages(before)[0] == s.skip(k as int)[0]);
            }
            assert(usages(rest@) =~= s.skip(k + 1)) by {
                assert(rest@ == before.remove(0));
                assert forall|i: int| 0 <= i < rest@.len() implies usages(rest@)[i] == s.skip(k + 1)[i] by {
                    assert(rest@[i] == before[i + 1]);
                    assert(usages(before)[i + 1] == s.skip(k as int)[i + 1]);
                }
            }
            assert(s.take(k + 1).drop_last() =~= s.take(k as int));
            assert(exists@.take(k + 1).drop_last() =~= exists@.take(k as int));
            let ghost kept_before = usages(kept@);
            if exists[k] {
                kept.push(u);
                assert(usages(kept@) =~= kept_before.push(u@));
            }
            k = k + 1;
        }
        assert(s.take(k as int) =~= s);
        assert(exists@.take(k as int) =~= exists@);
        self.projects = kept;
    }
}

/// One project's standing, as of the moment it was read.
#[derive(Debug)]
pub struct HistoryEntry {
    pub path: PathName,
    /// The raw score, in millionths of a point.
    pub score: u64,
    /// The score weighed by recency, in quarters of a millionth of a point.
    pub frecency: u128,
    /// How many seconds ago the project was last visited.
    pub last_used: u64,
    /// When the project was last visited, in seconds since the Unix epoch.
    pub last_used_at: u64,
    /// Whether the project is held above every unpinned one.
    pub pinned: bool,
}

/// What a [`HistoryEntry`] reports, with the path as its components.
pub struct EntryView {
    pub path: Parts,
    pub score: u64,
    pub frecency: u128,
    pub last_used: u64,
    pub last_used_at: u64,
    pub pinned: bool,
}

impl View for HistoryEntry {
    type V = EntryView;

    open spec fn view(&self) -> EntryView {
        EntryView {
            path: self.path@,
            score: self.score,
            frecency: self.frecency,
            last_used: self.last_used,
            last_used_at: self.last_used_at,
            pinned: self.pinned,
        }
    }
}

/// The standing of a project whose usage is `u`, seen at `now`.
pub open spec fn entry_of(u: UsageView, now: u64) -> EntryView {
    EntryView {
        path: u.path,
        score: u.score,
        frecency: frecency_of(u, now),
        last_used: elapsed(now, u.last_accessed),
        last_used_at: u.last_accessed,
        pinned: u.pinned,
    }
}

/// The standings of the usages `s`, seen at `now`, in order.
pub open spec fn entries_of(s: Seq<UsageView>, now: u64) -> Seq<EntryView> {
    s.map_values(|u: UsageView| entry_of(u, now))
}

/// What the entries of `es` report, in order.
pub open spec fn entry_views(es: Seq<HistoryEntry>) -> Seq<EntryView> {
    es.map_values(|e: HistoryEntry| e@)
}

/// A project ranks above another when it is pinned and the other is not;
/// between two pinned or two unpinned projects, higher frecency ranks first,
/// and then the earlier path.
pub open spec fn ranks_before(a_pinned: bool, a_frecency: u128, a_path: Parts, b_pinned: bool, b_frecency: u128, b_path: Parts) -> bool {
    (a_pinned && !b_pinned) || (a_pinned == b_pinned && (a_frecency > b_frecency || (a_frecency == b_frecency && path_lt(a_path, b_path))))
}

/// The facts that make `ranks_before` a strict weak order on
/// (pinned, frecency, path) triples.
pub proof fn lemma_ranks_order(
    ap: bool, af: u128, a: Parts,
    bp: bool, bf: u128, b: Parts,
    cp: bool, cf: u128, c: Parts,
)
    ensures
        !ranks_before(ap, af, a, ap, af, a),
        ranks_before(ap, af, a, bp, bf, b) && ranks_before(bp, bf, b, cp, cf, c) ==> ranks_before(ap, af, a, cp, cf, c),
        !ranks_before(ap, af, a, bp, bf, b) && !ranks_before(bp, bf, b, cp, cf, c) ==> !ranks_before(ap, af, a, cp, cf, c),
{
    crate::order::lemma_path_order(a, b, c);
    crate::order::lemma_path_order(a, c, b);
    crate::order::lemma_path_order(b, a, c);
    crate::order::lemma_path_order(b, c, a);
    crate::order::lemma_path_order(c, a, b);
    crate::order::lemma_path_order(c, b, a);
}

impl Ordered for HistoryEntry {
    open spec fn before(&self, other: &Self) -> bool {
        ranks_before(self.pinned, self.frecency, self.path@, other.pinned, other.frecency, other.path@)
    }

    proof fn lemma_order(a: &Self, b: &Self, c: &Self) {
        lemma_ranks_order(a.pinned, a.frecency, a.path@, b.pinned, b.frecency, b.path@, c.pinned, c.frecency, c.path@);
    }

    fn precedes(&self, other: &Self) -> (r: bool) {
        if self.pinned != other.pinned {
            self.pinned
        } else if self.frecency != other.frecency {
            self.frecency > other.frecency
        } else {
            self.path.less_than(&other.path)
        }
    }
}

impl ProjectUsage {
    /// This project's standing at `now`.
    pub fn entry(&self, now: u64) -> (r: HistoryEntry)
        ensures
            r@ == entry_of(self@, now),
    {
        HistoryEntry {
            path: self.path.duplicate(),
            score: self.score,
            frecency: self.frecency(now),
            last_used: now.saturating_sub(self.last_accessed),
            last_used_at: self.last_accessed,
            pinned: self.pinned,
        }
    }
}

impl History {
    /// Every recorded project's standing at `now`: pinned projects first, then
    /// by descending frecency, then by path.
    #[verifier::spinoff_prover]
    pub fn entries_at(&self, now: u64) -> (r: Vec<HistoryEntry>)
        ensures
            in_order(r@),
            entry_views(r@).to_multiset() == entries_of(self.records(), now).to_multiset(),
            exists|perm: Seq<int>|
                #[trigger] arranges(r@, self.records().len(), perm) && forall|k: int|
                    0 <= k < r@.len() ==> entry_views(r@)[k] == entries_of(self.records(), now)[perm[k]],
    {
        let mut entries: Vec<HistoryEntry> = Vec::new();
        let mut k: usize = 0;
        while k < self.projects.len()
            invariant
                k <= self.projects@.len(),
                entries@.len() == k,
                entry_views(entries@) == entries_of(self.records().take(k as int), now),
            decreases self.projects.len() - k,
        {
            let e = self.projects[k].entry(now);
            let ghost before = entries@;
            entries.push(e);
            assert(entry_views(entries@) =~= entries_of(self.records().take(k + 1), now)) by {
                assert(entries@ == before.push(e));
                assert(self.records()[k as int] == self.projects@[k as int]@);
                let want = entries_of(self.records().take(k + 1), now);
                assert(entry_views(entries@).len() == k + 1);
                assert forall|i: int| 0 <= i < k + 1 implies entry_views(entries@)[i] == want[i] by {
                    if i == k {
                        assert(entries@[i] == e);
                    } else {
                        assert(entry_views(before)[i] == entries_of(self.records().take(k as int), now)[i]);
                    }
                }
            }
            k = k + 1;
        }
        assert(self.records().take(k as int) =~= self.records());
        let ghost unsorted = entries@;
        let sorted = sort_items(entries);
        proof {
            crate::sort::lemma_map_same_items(sorted@, unsorted, |e: HistoryEntry| e@);
            let perm = choose|perm: Seq<int>|
                #[trigger] arranges(sorted@, unsorted.len(), perm) && forall|k: int|
                    0 <= k < sorted@.len() ==> sorted@[k] == unsorted[perm[k]];
            assert forall|k: int| 0 <= k < sorted@.len() implies entry_views(sorted@)[k]
                == entries_of(self.records(), now)[perm[k]] by {
                assert(sorted@[k] == unsorted[perm[k]]);
                assert(entry_views(unsorted)[perm[k]] == unsorted[perm[k]]@);
            }
            assert(arranges(sorted@, self.records().len(), perm));
        }
        sorted
    }
}

/// Scores are never negative, so neither is their sum.
proof fn lemma_total_nonnegative(s: Seq<UsageView>)
    ensures
        total_score(s) >= 0,
    decreases s.len(),
{
    if s.len() > 0 {
        lemma_total_nonnegative(s.drop_last());
    }
}

/// Scaling against a total above `AGED_TOTAL_SCORE` never raises a score.
proof fn lemma_scaled_score(x: u64, t: int)
    requires
        t > AGED_TOTAL_SCORE,
    ensures
        0 <= x * AGED_TOTAL_SCORE / t <= x,
        scaled(fresh_usage(Seq::empty(), x, 0), t).score == x * AGED_TOTAL_SCORE / t,
        t * (x * AGED_TOTAL_SCORE / t) <= x * AGED_TOTAL_SCORE,
{
    let q = x * AGED_TOTAL_SCORE / t;
    assert(0 <= q <= x && t * q <= x * AGED_TOTAL_SCORE) by (nonlinear_arith)
        requires
            t > AGED_TOTAL_SCORE,
            x >= 0,
            q == x * AGED_TOTAL_SCORE / t,
    {
        assert(x * AGED_TOTAL_SCORE <= x * t);
    }
}

/// Scaled against `t`, the survivors of `s` total at most
/// `AGED_TOTAL_SCORE * total_score(s) / t`.
proof fn lemma_scale_all_total(s: Seq<UsageView>, t: int)
    requires
        t > AGED_TOTAL_SCORE,
    ensures
        t * total_score(scale_all(s, t)) <= AGED_TOTAL_SCORE * total_score(s),
        total_score(scale_all(s, t)) >= 0,
    decreases s.len(),
{
    if s.len() > 0 {
        let rest = scale_all(s.drop_last(), t);
        let u = scaled(s.last(), t);
        lemma_scale_all_total(s.drop_last(), t);
        lemma_scaled_score(s.last().score, t);
        assert(u.score == s.last().score * AGED_TOTAL_SCORE / t) by {
            assert(scaled(fresh_usage(Seq::empty(), s.last().score, 0), t).score == u.score);
        }
        let a = total_score(rest);
        let b = total_score(s.drop_last());
        let x = s.last().score;
        let q = u.score;
        if survives(u) {
            assert(rest.push(u).drop_last() =~= rest);
            assert(t * (a + q) <= AGED_TOTAL_SCORE * (b + x)) by (nonlinear_arith)
                requires
                    t * a <= AGED_TOTAL_SCORE * b,
                    t * q <= x * AGED_TOTAL_SCORE,
            ;
        } else {
            assert(t * a <= AGED_TOTAL_SCORE * (b + x)) by (nonlinear_arith)
                requires
                    t * a <= AGED_TOTAL_SCORE * b,
                    x >= 0,
            ;
        }
    }
}

/// However the scores stood before, aging leaves them totalling at most
/// `MAX_TOTAL_SCORE`; when it scales them at all, at most `AGED_TOTAL_SCORE`.
pub proof fn lemma_aging_caps_total(s: Seq<UsageView>)
    ensures
        total_score(aged(s)) <= MAX_TOTAL_SCORE,
        total_score(s) > MAX_TOTAL_SCORE ==> total_score(aged(s)) <= AGED_TOTAL_SCORE,
{
    let t = total_score(s);
    if t > MAX_TOTAL_SCORE {
        lemma_scale_all_total(s, t);
        let a = total_score(scale_all(s, t));
        assert(a <= AGED_TOTAL_SCORE) by (nonlinear_arith)
            requires
                t * a <= AGED_TOTAL_SCORE * t,
                t > 0,
        ;
    }
}

/// The usages that scaling against `t` keeps are exactly the scaled usages of
/// `s` that survive, in order.
proof fn lemma_scale_all_members(s: Seq<UsageView>, t: int, i: int)
    requires
        0 <= i < s.len(),
        survives(scaled(s[i], t)),
    ensures
        scale_all(s, t).contains(scaled(s[i], t)),
    decreases s.len(),
{
    let rest = scale_all(s.drop_last(), t);
    if i == s.len() - 1 {
        assert(scale_all(s, t) == rest.push(scaled(s[i], t)));
        assert(scale_all(s, t)[rest.len() as int] == scaled(s[i], t));
    } else {
        lemma_scale_all_members(s.drop_last(), t, i);
        let k = choose|k: int| 0 <= k < rest.len() && rest[k] == scaled(s[i], t);
        if survives(scaled(s.last(), t)) {
            assert(scale_all(s, t)[k] == rest[k]);
        }
    }
}

/// Every usage that aging keeps survives: it is pinned or scores at least the
/// minimum.
proof fn lemma_scale_all_survivors(s: Seq<UsageView>, t: int)
    ensures
        forall|j: int| 0 <= j < scale_all(s, t).len() ==> survives(#[trigger] scale_all(s, t)[j]),
    decreases s.len(),
{
    if s.len() > 0 {
        let rest = scale_all(s.drop_last(), t);
        lemma_scale_all_survivors(s.drop_last(), t);
        assert forall|j: int| 0 <= j < scale_all(s, t).len() implies survives(#[trigger] scale_all(s, t)[j]) by {
            if j < rest.len() {
                assert(scale_all(s, t)[j] == rest[j]);
            }
        }
    }
}

/// Aging never drops a pinned project: it stays, still pinned, with its score
/// scaled like every other. Whatever aging keeps is pinned or scores at least
/// one point.
pub proof fn lemma_aging_keeps_pinned(s: Seq<UsageView>, i: int)
    requires
        0 <= i < s.len(),
        s[i].pinned,
    ensures
        exists|j: int| 0 <= j < aged(s).len() && #[trigger] aged(s)[j].path == s[i].path && aged(s)[j].pinned,
        total_score(s) > MAX_TOTAL_SCORE ==> forall|j: int| 0 <= j < aged(s).len() ==> survives(#[trigger] aged(s)[j]),
{
    let t = total_score(s);
    if t > MAX_TOTAL_SCORE {
        lemma_scale_all_members(s, t, i);
        let j = choose|j: int| 0 <= j < scale_all(s, t).len() && scale_all(s, t)[j] == scaled(s[i], t);
        assert(aged(s)[j].path == s[i].path);
        lemma_scale_all_survivors(s, t);
    } else {
        assert(aged(s)[i].path == s[i].path);
    }
}

/// A visit that keeps the total within `MAX_TOTAL_SCORE` adds exactly one
/// point: a project seen before scores one more than it did, and a new one
/// starts at one, both last used at the moment of the visit.
pub proof fn lemma_visit_adds_one_point(s: Seq<UsageView>, path: Parts, now: u64)
    requires
        total_score(visited(s, path, now)) <= MAX_TOTAL_SCORE,
    ensures
        aged(visited(s, path, now)) == visited(s, path, now),
        first_index(s, path) >= 0 ==> ({
            let i = first_index(s, path);
            &&& visited(s, path, now)[i].score == s[i].score + SCORE_UNIT
            &&& visited(s, path, now)[i].last_accessed == now
            &&& visited(s, path, now).len() == s.len()
        }),
        first_index(s, path) < 0 ==> visited(s, path, now) == s.push(fresh_usage(path, SCORE_UNIT, now)),
{
    let i = first_index(s, path);
    if i >= 0 {
        assert(0 <= i < s.len() && s[i].path == path);
        let v = visited(s, path, now);
        lemma_total_at_least_member(v, i);
        assert(v[i].score == bumped(s[i].score));
        assert(v[i].score <= MAX_TOTAL_SCORE);
    }
}

/// A visit changes nothing but the visited project's score and last visit:
/// its path and its pin stay, it scores one point more (held at the largest
/// score), and every other project is untouched. A project not seen before
/// joins at the end, unpinned, at one point, last visited now.
pub proof fn lemma_visit_changes_only_the_visited(s: Seq<UsageView>, path: Parts, now: u64)
    ensures
        first_index(s, path) >= 0 ==> ({
            let i = first_index(s, path);
            let v = visited(s, path, now);
            &&& v.len() == s.len()
            &&& v[i].path == path && s[i].path == path
            &&& v[i].pinned == s[i].pinned
            &&& v[i].last_accessed == now
            &&& s[i].score + SCORE_UNIT <= u64::MAX ==> v[i].score == s[i].score + SCORE_UNIT
            &&& s[i].score + SCORE_UNIT > u64::MAX ==> v[i].score == u64::MAX
            &&& forall|j: int| 0 <= j < s.len() && j != i ==> #[trigger] v[j] == s[j]
        }),
        first_index(s, path) < 0 ==> visited(s, path, now)
            == s.push(UsageView { path, score: SCORE_UNIT, last_accessed: now, pinned: false }),
        first_index(s, path) < 0 ==> forall|j: int| 0 <= j < s.len() ==> s[j].path != path,
{
    let i = first_index(s, path);
    if i >= 0 {
        assert(0 <= i < s.len() && s[i].path == path);
    } else {
        assert forall|j: int| 0 <= j < s.len() implies s[j].path != path by {
            if s[j].path == path {
                lemma_first_index_exists(s, path, j);
            }
        }
    }
}

/// When some usage of `path` exists, `first_index` finds one.
proof fn lemma_first_index_exists(s: Seq<UsageView>, path: Parts, j: int)
    requires
        0 <= j < s.len(),
        s[j].path == path,
    ensures
        0 <= first_index(s, path) <= j,
        s[first_index(s, path)].path == path,
    decreases j,
{
    if exists|k: int| 0 <= k < j && s[k].path == path {
        let k = choose|k: int| 0 <= k < j && s[k].path == path;
        lemma_first_index_exists(s, path, k);
    } else {
        assert(0 <= j < s.len() && s[j].path == path && forall|k: int| 0 <= k < j ==> s[k].path != path);
    }
}

/// What a score change does, spelled out over the usages:
///
/// - setting a score of at least the minimum replaces the first usage's
///   score, keeping its path, pin and last visit, or adds an unpinned usage
///   visited now with that score; a lower score is refused;
/// - an adjustment moves the first usage's score by `delta`, or drops the
///   usage when it would fall below the minimum; it is refused for a project
///   not in history, or a score that cannot be held;
/// - a removal drops the first usage, and is refused for a project not in
///   history.
///
/// No other usage changes, and when the total stays within
/// `MAX_TOTAL_SCORE`, aging leaves the result as it is.
pub proof fn lemma_score_changes(s: Seq<UsageView>, path: Parts, change: ScoreChange, now: u64)
    ensures
        changed(s, path, change, now) matches Some(t) ==> (total_score(t) <= MAX_TOTAL_SCORE ==> aged(t) == t),
        ({
            let i = first_index(s, path);
            match change {
                ScoreChange::SetTo(score) => if score < MINIMUM_SCORE {
                    changed(s, path, change, now) is None
                } else if i >= 0 {
                    changed(s, path, change, now) matches Some(t) && t.len() == s.len()
                        && t[i] == UsageView { path: s[i].path, score, last_accessed: s[i].last_accessed, pinned: s[i].pinned }
                        && forall|j: int| 0 <= j < s.len() && j != i ==> #[trigger] t[j] == s[j]
                } else {
                    changed(s, path, change, now) == Some(s.push(UsageView { path, score, last_accessed: now, pinned: false }))
                },
                ScoreChange::Adjust(delta) => if i < 0 {
                    changed(s, path, change, now) is None
                } else if s[i].score + delta < MINIMUM_SCORE {
                    changed(s, path, change, now) matches Some(t) && t.len() == s.len() - 1
                        && (forall|j: int| 0 <= j < i ==> #[trigger] t[j] == s[j])
                        && forall|j: int| i <= j < t.len() ==> #[trigger] t[j] == s[j + 1]
                } else if s[i].score + delta > u64::MAX {
                    changed(s, path, change, now) is None
                } else {
                    changed(s, path, change, now) matches Some(t) && t.len() == s.len()
                        && t[i].score == s[i].score + delta && t[i].path == s[i].path
                        && t[i].pinned == s[i].pinned && t[i].last_accessed == s[i].last_accessed
                        && forall|j: int| 0 <= j < s.len() && j != i ==> #[trigger] t[j] == s[j]
                },
                ScoreChange::Remove => if i < 0 {
                    changed(s, path, change, now) is None
                } else {
                    changed(s, path, change, now) matches Some(t) && t.len() == s.len() - 1
                        && (forall|j: int| 0 <= j < i ==> #[trigger] t[j] == s[j])
                        && forall|j: int| i <= j < t.len() ==> #[trigger] t[j] == s[j + 1]
                },
            }
        }),
{
}

/// Pinning a project in history flips only its flag; pinning one that is not
/// adds it at the end, pinned, at the score of one visit and last visited
/// now; unpinning one that is not is refused. No other usage changes.
pub proof fn lemma_pin_changes(s: Seq<UsageView>, path: Parts, pinned: bool, now: u64)
    ensures
        first_index(s, path) >= 0 ==> ({
            let i = first_index(s, path);
            pin_changed(s, path, pinned, now) matches Some(t) && t.len() == s.len()
                && t[i] == UsageView { path: s[i].path, score: s[i].score, last_accessed: s[i].last_accessed, pinned }
                && forall|j: int| 0 <= j < s.len() && j != i ==> #[trigger] t[j] == s[j]
        }),
        first_index(s, path) < 0 && pinned ==> pin_changed(s, path, pinned, now)
            == Some(s.push(UsageView { path, score: SCORE_UNIT, last_accessed: now, pinned: true })),
        first_index(s, path) < 0 && !pinned ==> pin_changed(s, path, pinned, now) is None,
{
}

/// Pruning keeps exactly the usages whose flag is set, in their order: each
/// kept usage is one of `s` with its flag set, each flagged usage is kept,
/// and as many are kept as flags are set.
pub proof fn lemma_prune_keeps_flagged(s: Seq<UsageView>, keep: Seq<bool>)
    requires
        keep.len() == s.len(),
    ensures
        kept_where(s, keep).len() == keep.filter(|b: bool| b).len(),
        forall|u: UsageView| #[trigger] kept_where(s, keep).contains(u) ==> exists|i: int| 0 <= i < s.len() && keep[i] && s[i] == u,
        forall|i: int| 0 <= i < s.len() && keep[i] ==> #[trigger] kept_where(s, keep).contains(s[i]),
    decreases s.len(),
{
    reveal(Seq::filter);
    if s.len() > 0 {
        let s0 = s.drop_last();
        let k0 = keep.drop_last();
        lemma_prune_keeps_flagged(s0, k0);
        assert(keep =~= k0.push(keep.last()));
        let t = kept_where(s, keep);
        let t0 = kept_where(s0, k0);
        assert forall|u: UsageView| #[trigger] t.contains(u) implies exists|i: int| 0 <= i < s.len() && keep[i] && s[i] == u by {
            if keep.last() {
                if u == s.last() {
                    assert(s[s.len() - 1] == u && keep[s.len() - 1]);
                } else {
                    let m = choose|m: int| 0 <= m < t.len() && t[m] == u;
                    assert(m < t0.len() && t0[m] == u);
                    assert(t0.contains(u));
                    let i = choose|i: int| 0 <= i < s0.len() && k0[i] && s0[i] == u;
                    assert(s[i] == u && keep[i]);
                }
            } else {
                let i = choose|i: int| 0 <= i < s0.len() && k0[i] && s0[i] == u;
                assert(s[i] == u && keep[i]);
            }
        }
        assert forall|i: int| 0 <= i < s.len() && keep[i] implies #[trigger] t.contains(s[i]) by {
            if i == s.len() - 1 {
                assert(t[t.len() - 1] == s[i]);
            } else {
                assert(s0[i] == s[i] && k0[i]);
                assert(t0.contains(s0[i]));
                if keep.last() {
                    let m = choose|m: int| 0 <= m < t0.len() && t0[m] == s[i];
                    assert(t[m] == s[i]);
                }
            }
        }
    }
}

/// Frecency weighs a project's score by how recently it was used: four
/// times within the hour, twice within the day, half within the week, and a
/// quarter after that, counted in quarters. A later visit never weighs less.
pub proof fn lemma_frecency_weights(u: UsageView, now: u64, later: u64)
    ensures
        now < u.last_accessed + HOUR ==> frecency_of(u, now) == 16 * u.score,
        u.last_accessed + HOUR <= now < u.last_accessed + DAY ==> frecency_of(u, now) == 8 * u.score,
        u.last_accessed + DAY <= now < u.last_accessed + WEEK ==> frecency_of(u, now) == 2 * u.score,
        u.last_accessed + WEEK <= now ==> frecency_of(u, now) == u.score,
        now <= later ==> frecency_of(u, later) <= frecency_of(u, now),
{
    let a = elapsed(now, u.last_accessed);
    if now < u.last_accessed + HOUR {
        assert(a < HOUR);
        assert(weight_quarters(a) == 16);
    } else if now < u.last_accessed + DAY {
        assert(HOUR <= a < DAY);
        assert(weight_quarters(a) == 8);
    } else if now < u.last_accessed + WEEK {
        assert(DAY <= a < WEEK);
        assert(weight_quarters(a) == 2);
    } else {
        assert(WEEK <= a);
        assert(weight_quarters(a) == 1);
    }
    if now <= later {
        assert(elapsed(now, u.last_accessed) <= elapsed(later, u.last_accessed));
        assert(weight_quarters(elapsed(later, u.last_accessed)) <= weight_quarters(a));
        assert(u.score * weight_quarters(elapsed(later, u.last_accessed)) <= u.score * weight_quarters(a)) by (nonlinear_arith)
            requires weight_quarters(elapsed(later, u.last_accessed)) <= weight_quarters(a);
    }
}

/// No single score exceeds the total.
proof fn lemma_total_at_least_member(s: Seq<UsageView>, i: int)
    requires
        0 <= i < s.len(),
    ensures
        total_score(s) >= s[i].score,
    decreases s.len(),
{
    lemma_total_nonnegative(s.drop_last());
    if i < s.len() - 1 {
        lemma_total_at_least_member(s.drop_last(), i);
    }
}

/// The standings of a history come out with every pinned project ahead of
/// every unpinned one.
pub proof fn lemma_pinned_listed_first(es: Seq<HistoryEntry>)
    requires
        in_order(es),
    ensures
        forall|i: int, j: int| 0 <= i < j < es.len() && es[j].pinned ==> #[trigger] es[i].pinned && #[trigger] es[j].pinned,
{
    assert forall|i: int, j: int| 0 <= i < j < es.len() && es[j].pinned implies #[trigger] es[i].pinned && #[trigger] es[j].pinned by {
        assert(!es[j].before(&es[i]));
    }
}

/// Pinning a known project and unpinning it again leaves it as it was but for
/// the flag: its score and its last visit are untouched.
pub proof fn lemma_pin_round_trip(s: Seq<UsageView>, path: Parts, now: u64)
    requires
        first_index(s, path) >= 0,
    ensures
        pin_changed(s, path, true, now) is Some,
        pin_changed(pin_changed(s, path, true, now)->0, path, false, now)
            == Some(s.update(first_index(s, path), repinned(s[first_index(s, path)], false))),
{
    let i = first_index(s, path);
    let p = pin_changed(s, path, true, now)->0;
    assert(first_index(p, path) == i) by {
        assert(p[i].path == path);
        assert forall|j: int| 0 <= j < i implies p[j].path != path by {
            assert(p[j] == s[j]);
        }
        let k = first_index(p, path);
        if k != i {
            if k < i {
                assert(p[k] == s[k]);
            }
        }
    }
    assert(p.update(i, repinned(p[i], false)) =~= s.update(i, repinned(s[i], false)));
}

} // verus!
