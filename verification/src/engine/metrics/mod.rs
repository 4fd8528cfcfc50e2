//! Metrics: each one is a pure function of the history.
//!
//! The sums below describe what a metric reads: the file stats of the
//! commits inside a time window, each weighted by a function of the
//! commit and the stat.

pub mod churn;
pub mod coupling;
pub mod hotspots;
pub mod ownership;
pub mod risk;

use vstd::prelude::*;
use crate::engine::model::{CommitRecord, FileStat};

verus! {

/// Seconds in a day.
pub const DAY_SECS: i64 = 86_400;

/// Time window: `from` is epoch seconds; `None` is the whole history.
#[derive(Debug, Clone, Copy, Default, PartialEq, Eq, Structural)]
pub struct Window {
    pub from: Option<i64>,
}

impl Window {
    /// The whole history.
    pub fn all() -> (w: Window)
        ensures
            w.from == None::<i64>,
    {
        Window { from: None }
    }

    pub open spec fn spec_includes(self, time: i64) -> bool {
        match self.from {
            None => true,
            Some(from) => time >= from,
        }
    }

    /// The window of the last `days` days before `now`.
    pub fn last_days(days: i64, now: i64) -> (w: Window)
        requires
            i64::MIN <= days * DAY_SECS <= i64::MAX,
            i64::MIN <= now - days * DAY_SECS <= i64::MAX,
        ensures
            w.from == Some((now - days * DAY_SECS) as i64),
    {
        Window { from: Some(now - days * DAY_SECS) }
    }

    /// `time` falls inside the window.
    pub fn includes(&self, time: i64) -> (r: bool)
        ensures
            r == self.spec_includes(time),
    {
        match self.from {
            None => true,
            Some(from) => time >= from,
        }
    }
}

/// Weight of one file stat of one commit.
pub type Weight = spec_fn(CommitRecord, FileStat) -> int;

/// Sum of `g` over `files`, all of commit `c`.
pub open spec fn sum_files(c: CommitRecord, files: Seq<FileStat>, g: Weight) -> int
    decreases files.len(),
{
    if files.len() == 0 {
        0
    } else {
        sum_files(c, files.drop_last(), g) + g(c, files.last())
    }
}

/// Sum of `g` over the file stats of the commits inside window `w`.
pub open spec fn sum_commits(commits: Seq<CommitRecord>, w: Window, g: Weight) -> int
    decreases commits.len(),
{
    if commits.len() == 0 {
        0
    } else {
        sum_commits(commits.drop_last(), w, g) + (if w.spec_includes(commits.last().time) {
            sum_files(commits.last(), commits.last().files@, g)
        } else {
            0
        })
    }
}

/// Sum of `g` over the first `i` commits and the first `j` stats of commit `i`.
pub open spec fn sum_upto(commits: Seq<CommitRecord>, w: Window, g: Weight, i: int, j: int) -> int {
    sum_commits(commits.take(i), w, g) + (if w.spec_includes(commits[i].time) {
        sum_files(commits[i], commits[i].files@.take(j), g)
    } else {
        0
    })
}

pub open spec fn nonnegative(g: Weight) -> bool {
    forall|c: CommitRecord, s: FileStat| #[trigger] g(c, s) >= 0
}

pub proof fn lemma_sum_files_step(c: CommitRecord, files: Seq<FileStat>, g: Weight, j: int)
    requires
        0 <= j < files.len(),
    ensures
        sum_files(c, files.take(j + 1), g) == sum_files(c, files.take(j), g) + g(c, files[j]),
{
    assert(files.take(j + 1).drop_last() =~= files.take(j));
}

pub proof fn lemma_sum_files_nonneg(c: CommitRecord, files: Seq<FileStat>, g: Weight)
    requires
        nonnegative(g),
    ensures
        sum_files(c, files, g) >= 0,
    decreases files.len(),
{
    if files.len() > 0 {
        lemma_sum_files_nonneg(c, files.drop_last(), g);
        assert(g(c, files.last()) >= 0);
    }
}

pub proof fn lemma_sum_files_prefix(c: CommitRecord, files: Seq<FileStat>, g: Weight, j: int)
    requires
        nonnegative(g),
        0 <= j <= files.len(),
    ensures
        sum_files(c, files.take(j), g) <= sum_files(c, files, g),
    decreases files.len() - j,
{
    if j < files.len() {
        lemma_sum_files_step(c, files, g, j);
        assert(g(c, files[j]) >= 0);
        lemma_sum_files_prefix(c, files, g, j + 1);
    } else {
        assert(files.take(j) =~= files);
    }
}

pub proof fn lemma_sum_commits_step(commits: Seq<CommitRecord>, w: Window, g: Weight, i: int)
    requires
        0 <= i < commits.len(),
    ensures
        sum_commits(commits.take(i + 1), w, g) == sum_commits(commits.take(i), w, g) + (
        if w.spec_includes(commits[i].time) {
            sum_files(commits[i], commits[i].files@, g)
        } else {
            0
        }),
{
    assert(commits.take(i + 1).drop_last() =~= commits.take(i));
}

pub proof fn lemma_sum_commits_nonneg(commits: Seq<CommitRecord>, w: Window, g: Weight)
    requires
        nonnegative(g),
    ensures
        sum_commits(commits, w, g) >= 0,
    decreases commits.len(),
{
    if commits.len() > 0 {
        lemma_sum_commits_nonneg(commits.drop_last(), w, g);
        lemma_sum_files_nonneg(commits.last(), commits.last().files@, g);
    }
}

pub proof fn lemma_sum_commits_prefix(commits: Seq<CommitRecord>, w: Window, g: Weight, i: int)
    requires
        nonnegative(g),
        0 <= i <= commits.len(),
    ensures
        sum_commits(commits.take(i), w, g) <= sum_commits(commits, w, g),
    decreases commits.len() - i,
{
    if i < commits.len() {
        lemma_sum_commits_step(commits, w, g, i);
        lemma_sum_files_nonneg(commits[i], commits[i].files@, g);
        lemma_sum_commits_prefix(commits, w, g, i + 1);
    } else {
        assert(commits.take(i) =~= commits);
    }
}

/// A partial sum never exceeds the whole sum.
pub proof fn lemma_sum_upto_bound(commits: Seq<CommitRecord>, w: Window, g: Weight, i: int, j: int)
    requires
        nonnegative(g),
        0 <= i < commits.len(),
        0 <= j <= commits[i].files@.len(),
    ensures
        0 <= sum_upto(commits, w, g, i, j) <= sum_commits(commits, w, g),
{
    lemma_sum_commits_nonneg(commits.take(i), w, g);
    lemma_sum_files_nonneg(commits[i], commits[i].files@.take(j), g);
    lemma_sum_files_prefix(commits[i], commits[i].files@, g, j);
    lemma_sum_commits_step(commits, w, g, i);
    lemma_sum_commits_prefix(commits, w, g, i + 1);
}

/// Moving to the next stat of commit `i` adds that stat's weight.
pub proof fn lemma_sum_upto_next_file(commits: Seq<CommitRecord>, w: Window, g: Weight, i: int, j: int)
    requires
        0 <= i < commits.len(),
        0 <= j < commits[i].files@.len(),
    ensures
        sum_upto(commits, w, g, i, j + 1) == sum_upto(commits, w, g, i, j) + (if w.spec_includes(
            commits[i].time,
        ) {
            g(commits[i], commits[i].files@[j])
        } else {
            0
        }),
{
    lemma_sum_files_step(commits[i], commits[i].files@, g, j);
}

/// After the last stat of commit `i`, the partial sum is the sum of the first `i + 1` commits.
pub proof fn lemma_sum_upto_next_commit(commits: Seq<CommitRecord>, w: Window, g: Weight, i: int)
    requires
        0 <= i < commits.len(),
    ensures
        sum_upto(commits, w, g, i, commits[i].files@.len() as int) == sum_commits(
            commits.take(i + 1),
            w,
            g,
        ),
{
    lemma_sum_commits_step(commits, w, g, i);
    assert(commits[i].files@.take(commits[i].files@.len() as int) =~= commits[i].files@);
}

/// The partial sum at the start of commit `i` is the sum of the first `i` commits.
pub proof fn lemma_sum_upto_start(commits: Seq<CommitRecord>, w: Window, g: Weight, i: int)
    requires
        0 <= i < commits.len(),
    ensures
        sum_upto(commits, w, g, i, 0) == sum_commits(commits.take(i), w, g),
{
    assert(commits[i].files@.take(0) =~= Seq::<FileStat>::empty());
}


/// At stat 0 of commit `i` (any `i` up to the end), the partial sum is the
/// sum of the first `i` commits.
pub proof fn lemma_sum_upto_zero(commits: Seq<CommitRecord>, w: Window, g: Weight, i: int)
    requires
        0 <= i <= commits.len(),
    ensures
        sum_upto(commits, w, g, i, 0) == sum_commits(commits.take(i), w, g),
{
    assert(commits[i].files@.take(0) =~= Seq::<FileStat>::empty());
}

/// Moving from commit `i` to commit `i + 1`.
pub proof fn lemma_sum_upto_advance(commits: Seq<CommitRecord>, w: Window, g: Weight, i: int)
    requires
        0 <= i < commits.len(),
    ensures
        sum_upto(commits, w, g, i + 1, 0) == if w.spec_includes(commits[i].time) {
            sum_upto(commits, w, g, i, commits[i].files@.len() as int)
        } else {
            sum_upto(commits, w, g, i, 0)
        },
{
    lemma_sum_upto_zero(commits, w, g, i + 1);
    lemma_sum_upto_zero(commits, w, g, i);
    lemma_sum_upto_next_commit(commits, w, g, i);
    lemma_sum_commits_step(commits, w, g, i);
}

/// The partial sum at the end is the whole sum.
pub proof fn lemma_sum_upto_end(commits: Seq<CommitRecord>, w: Window, g: Weight)
    ensures
        sum_upto(commits, w, g, commits.len() as int, 0) == sum_commits(commits, w, g),
{
    lemma_sum_upto_zero(commits, w, g, commits.len() as int);
    assert(commits.take(commits.len() as int) =~= commits);
}

/// A pointwise smaller weight has a smaller sum.
pub proof fn lemma_sum_files_monotone(c: CommitRecord, files: Seq<FileStat>, g1: Weight, g2: Weight)
    requires
        forall|c2: CommitRecord, s: FileStat| #[trigger] g1(c2, s) <= g2(c2, s),
    ensures
        sum_files(c, files, g1) <= sum_files(c, files, g2),
    decreases files.len(),
{
    if files.len() > 0 {
        lemma_sum_files_monotone(c, files.drop_last(), g1, g2);
        assert(g1(c, files.last()) <= g2(c, files.last()));
    }
}

pub proof fn lemma_sum_commits_monotone(commits: Seq<CommitRecord>, w: Window, g1: Weight, g2: Weight)
    requires
        forall|c2: CommitRecord, s: FileStat| #[trigger] g1(c2, s) <= g2(c2, s),
    ensures
        sum_commits(commits, w, g1) <= sum_commits(commits, w, g2),
    decreases commits.len(),
{
    if commits.len() > 0 {
        lemma_sum_commits_monotone(commits.drop_last(), w, g1, g2);
        lemma_sum_files_monotone(commits.last(), commits.last().files@, g1, g2);
    }
}

pub proof fn lemma_sum_upto_monotone(commits: Seq<CommitRecord>, w: Window, g1: Weight, g2: Weight, i: int, j: int)
    requires
        forall|c2: CommitRecord, s: FileStat| #[trigger] g1(c2, s) <= g2(c2, s),
    ensures
        sum_upto(commits, w, g1, i, j) <= sum_upto(commits, w, g2, i, j),
{
    lemma_sum_commits_monotone(commits.take(i), w, g1, g2);
    lemma_sum_files_monotone(commits[i], commits[i].files@.take(j), g1, g2);
}

/// A weight that only counts stats of file `f` sums to zero where `f` is never touched.
pub proof fn lemma_gated_files(c: CommitRecord, files: Seq<FileStat>, f: u32, g: Weight, t: Weight)
    requires
        forall|c2: CommitRecord, s: FileStat| #[trigger] g(c2, s) != 0 ==> s.file.0 == f,
        forall|c2: CommitRecord, s: FileStat| #[trigger] t(c2, s) == if s.file.0 == f { 1int } else { 0 },
        sum_files(c, files, t) == 0,
    ensures
        sum_files(c, files, g) == 0,
    decreases files.len(),
{
    if files.len() > 0 {
        assert(t(c, files.last()) >= 0);
        assert forall|c2: CommitRecord, s: FileStat| #[trigger] t(c2, s) >= 0 by {}
        lemma_sum_files_nonneg(c, files.drop_last(), t);
        lemma_gated_files(c, files.drop_last(), f, g, t);
        assert(g(c, files.last()) == 0);
    }
}

pub proof fn lemma_gated_commits(commits: Seq<CommitRecord>, w: Window, f: u32, g: Weight, t: Weight)
    requires
        forall|c2: CommitRecord, s: FileStat| #[trigger] g(c2, s) != 0 ==> s.file.0 == f,
        forall|c2: CommitRecord, s: FileStat| #[trigger] t(c2, s) == if s.file.0 == f { 1int } else { 0 },
        sum_commits(commits, w, t) == 0,
    ensures
        sum_commits(commits, w, g) == 0,
    decreases commits.len(),
{
    if commits.len() > 0 {
        let c = commits.last();
        assert forall|c2: CommitRecord, s: FileStat| #[trigger] t(c2, s) >= 0 by {}
        lemma_sum_commits_nonneg(commits.drop_last(), w, t);
        lemma_sum_files_nonneg(c, c.files@, t);
        lemma_gated_commits(commits.drop_last(), w, f, g, t);
        if w.spec_includes(c.time) {
            lemma_gated_files(c, c.files@, f, g, t);
        }
    }
}

} // verus!
