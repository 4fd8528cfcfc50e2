//! Churn per file: lines added plus lines deleted inside a window.

use vstd::prelude::*;
use vstd::hash_map::HashMapWithView;
use crate::engine::metrics::{
    lemma_sum_commits_nonneg, lemma_sum_files_nonneg, lemma_sum_files_step, lemma_sum_upto_bound,
    lemma_sum_upto_next_commit, lemma_sum_upto_next_file, lemma_sum_upto_start, nonnegative,
    sum_commits, sum_files, sum_upto, Weight, Window,
};
use crate::engine::model::{CommitRecord, FileId, FileStat, History};
use crate::order::{lemma_sorted_unique, sort_strict, sorted_strict, pairwise_ordered, StrictOrder};

verus! {

broadcast use vstd::std_specs::hash::group_hash_axioms;

#[derive(Debug, Clone, Copy, PartialEq, Eq, Structural)]
pub struct ChurnRow {
    pub file: FileId,
    pub adds: u32,
    pub dels: u32,
    pub touches: u32,
    pub last_time: i64,
    /// Every touch of the file was binary.
    pub binary: bool,
}

impl ChurnRow {
    pub open spec fn spec_churn(self) -> int {
        self.adds + self.dels
    }

    /// Lines added plus lines deleted.
    pub fn churn(&self) -> (c: u32)
        requires
            self.adds + self.dels <= u32::MAX,
        ensures
            c == self.spec_churn(),
    {
        self.adds + self.dels
    }
}

/// Rows go by churn, largest first; equal churn by file id, smallest first.
impl StrictOrder for ChurnRow {
    open spec fn before(self, other: Self) -> bool {
        self.spec_churn() > other.spec_churn() || (self.spec_churn() == other.spec_churn()
            && self.file.0 < other.file.0)
    }

    fn is_before(&self, other: &Self) -> (r: bool) {
        let a = self.adds as u64 + self.dels as u64;
        let b = other.adds as u64 + other.dels as u64;
        a > b || (a == b && self.file.0 < other.file.0)
    }

    proof fn lemma_strict(a: Self, b: Self, c: Self) {
    }
}

pub open spec fn adds_weight(f: u32) -> Weight {
    |c: CommitRecord, s: FileStat| if s.file.0 == f { s.adds as int } else { 0 }
}

pub open spec fn dels_weight(f: u32) -> Weight {
    |c: CommitRecord, s: FileStat| if s.file.0 == f { s.dels as int } else { 0 }
}

pub open spec fn touch_weight(f: u32) -> Weight {
    |c: CommitRecord, s: FileStat| if s.file.0 == f { 1int } else { 0 }
}

pub open spec fn text_weight(f: u32) -> Weight {
    |c: CommitRecord, s: FileStat| if s.file.0 == f && !s.binary { 1int } else { 0 }
}

/// Latest commit time (at least 0) among the commits in the window that touch `f`.
pub open spec fn last_touch(commits: Seq<CommitRecord>, w: Window, f: u32) -> i64
    decreases commits.len(),
{
    if commits.len() == 0 {
        0
    } else {
        let prev = last_touch(commits.drop_last(), w, f);
        let c = commits.last();
        if w.spec_includes(c.time) && sum_files(c, c.files@, touch_weight(f)) > 0 {
            if prev >= c.time {
                prev
            } else {
                c.time
            }
        } else {
            prev
        }
    }
}

/// `last_touch` over the first `i` commits and the first `j` stats of commit `i`.
pub open spec fn last_touch_upto(commits: Seq<CommitRecord>, w: Window, f: u32, i: int, j: int) -> i64 {
    let prev = last_touch(commits.take(i), w, f);
    let c = commits[i];
    if w.spec_includes(c.time) && sum_files(c, c.files@.take(j), touch_weight(f)) > 0 {
        if prev >= c.time {
            prev
        } else {
            c.time
        }
    } else {
        prev
    }
}

/// Number of touches of `f` inside the window.
pub open spec fn file_touches(commits: Seq<CommitRecord>, w: Window, f: u32) -> int {
    sum_commits(commits, w, touch_weight(f))
}

/// The churn row of file `f` over `commits`.
pub open spec fn churn_row_of(commits: Seq<CommitRecord>, w: Window, f: u32) -> ChurnRow {
    ChurnRow {
        file: FileId(f),
        adds: sum_commits(commits, w, adds_weight(f)) as u32,
        dels: sum_commits(commits, w, dels_weight(f)) as u32,
        touches: sum_commits(commits, w, touch_weight(f)) as u32,
        last_time: last_touch(commits, w, f),
        binary: sum_commits(commits, w, text_weight(f)) == 0,
    }
}

/// The churn row of `f` over the first `i` commits and the first `j` stats of commit `i`.
pub open spec fn churn_row_upto(commits: Seq<CommitRecord>, w: Window, f: u32, i: int, j: int) -> ChurnRow {
    ChurnRow {
        file: FileId(f),
        adds: sum_upto(commits, w, adds_weight(f), i, j) as u32,
        dels: sum_upto(commits, w, dels_weight(f), i, j) as u32,
        touches: sum_upto(commits, w, touch_weight(f), i, j) as u32,
        last_time: last_touch_upto(commits, w, f, i, j),
        binary: sum_upto(commits, w, text_weight(f), i, j) == 0,
    }
}

/// Per file, the added and deleted lines and the touches fit in `u32`
/// (and so does the churn, their sum).
pub open spec fn churn_fits(commits: Seq<CommitRecord>, w: Window) -> bool {
    forall|f: u32|
        #![trigger sum_commits(commits, w, adds_weight(f))]
        sum_commits(commits, w, adds_weight(f)) + sum_commits(commits, w, dels_weight(f))
            <= u32::MAX && sum_commits(commits, w, touch_weight(f)) <= u32::MAX
}

proof fn lemma_weights_nonneg(f: u32)
    ensures
        nonnegative(adds_weight(f)),
        nonnegative(dels_weight(f)),
        nonnegative(touch_weight(f)),
        nonnegative(text_weight(f)),
{
}

proof fn lemma_last_touch_untouched(commits: Seq<CommitRecord>, w: Window, f: u32)
    requires
        sum_commits(commits, w, touch_weight(f)) == 0,
    ensures
        last_touch(commits, w, f) == 0,
    decreases commits.len(),
{
    if commits.len() > 0 {
        let c = commits.last();
        lemma_sum_commits_nonneg(commits.drop_last(), w, touch_weight(f));
        lemma_sum_files_nonneg(c, c.files@, touch_weight(f));
        lemma_last_touch_untouched(commits.drop_last(), w, f);
    }
}

/// A weight that only counts stats of `f` sums to zero where `f` is never touched.
proof fn lemma_untouched_files(c: CommitRecord, files: Seq<FileStat>, f: u32, g: Weight)
    requires
        forall|c2: CommitRecord, s: FileStat| #[trigger] g(c2, s) != 0 ==> s.file.0 == f,
        sum_files(c, files, touch_weight(f)) == 0,
    ensures
        sum_files(c, files, g) == 0,
    decreases files.len(),
{
    if files.len() > 0 {
        lemma_sum_files_nonneg(c, files.drop_last(), touch_weight(f));
        lemma_untouched_files(c, files.drop_last(), f, g);
        assert(g(c, files.last()) == 0);
    }
}

proof fn lemma_untouched_commits(commits: Seq<CommitRecord>, w: Window, f: u32, g: Weight)
    requires
        forall|c2: CommitRecord, s: FileStat| #[trigger] g(c2, s) != 0 ==> s.file.0 == f,
        sum_commits(commits, w, touch_weight(f)) == 0,
    ensures
        sum_commits(commits, w, g) == 0,
    decreases commits.len(),
{
    if commits.len() > 0 {
        let c = commits.last();
        lemma_sum_commits_nonneg(commits.drop_last(), w, touch_weight(f));
        lemma_sum_files_nonneg(c, c.files@, touch_weight(f));
        lemma_untouched_commits(commits.drop_last(), w, f, g);
        if w.spec_includes(c.time) {
            lemma_untouched_files(c, c.files@, f, g);
        }
    }
}

proof fn lemma_upto_start(commits: Seq<CommitRecord>, w: Window, f: u32, i: int)
    requires
        0 <= i < commits.len(),
    ensures
        churn_row_upto(commits, w, f, i, 0) == churn_row_of(commits.take(i), w, f),
{
    lemma_sum_upto_start(commits, w, adds_weight(f), i);
    lemma_sum_upto_start(commits, w, dels_weight(f), i);
    lemma_sum_upto_start(commits, w, touch_weight(f), i);
    lemma_sum_upto_start(commits, w, text_weight(f), i);
    assert(commits[i].files@.take(0) =~= Seq::<FileStat>::empty());
}

proof fn lemma_upto_end(commits: Seq<CommitRecord>, w: Window, f: u32, i: int)
    requires
        0 <= i < commits.len(),
    ensures
        churn_row_upto(commits, w, f, i, commits[i].files@.len() as int) == churn_row_of(
            commits.take(i + 1),
            w,
            f,
        ),
{
    lemma_sum_upto_next_commit(commits, w, adds_weight(f), i);
    lemma_sum_upto_next_commit(commits, w, dels_weight(f), i);
    lemma_sum_upto_next_commit(commits, w, touch_weight(f), i);
    lemma_sum_upto_next_commit(commits, w, text_weight(f), i);
    assert(commits.take(i + 1).drop_last() =~= commits.take(i));
    assert(commits[i].files@.take(commits[i].files@.len() as int) =~= commits[i].files@);
}

/// Stat `j` of commit `i` leaves the rows of the other files as they were.
proof fn lemma_upto_other_file(commits: Seq<CommitRecord>, w: Window, f: u32, i: int, j: int)
    requires
        0 <= i < commits.len(),
        0 <= j < commits[i].files@.len(),
        commits[i].files@[j].file.0 != f,
    ensures
        churn_row_upto(commits, w, f, i, j + 1) == churn_row_upto(commits, w, f, i, j),
{
    lemma_sum_upto_next_file(commits, w, adds_weight(f), i, j);
    lemma_sum_upto_next_file(commits, w, dels_weight(f), i, j);
    lemma_sum_upto_next_file(commits, w, touch_weight(f), i, j);
    lemma_sum_upto_next_file(commits, w, text_weight(f), i, j);
    lemma_sum_files_step(commits[i], commits[i].files@, touch_weight(f), j);
}

/// Stat `j` of commit `i` (inside the window) on file `f` adds its counts to `f`'s row.
proof fn lemma_upto_same_file(commits: Seq<CommitRecord>, w: Window, f: u32, i: int, j: int)
    requires
        0 <= i < commits.len(),
        0 <= j < commits[i].files@.len(),
        commits[i].files@[j].file.0 == f,
        w.spec_includes(commits[i].time),
    ensures
        sum_upto(commits, w, adds_weight(f), i, j + 1) == sum_upto(commits, w, adds_weight(f), i, j)
            + commits[i].files@[j].adds,
        sum_upto(commits, w, dels_weight(f), i, j + 1) == sum_upto(commits, w, dels_weight(f), i, j)
            + commits[i].files@[j].dels,
        sum_upto(commits, w, touch_weight(f), i, j + 1) == sum_upto(commits, w, touch_weight(f), i, j)
            + 1,
        sum_upto(commits, w, text_weight(f), i, j + 1) == sum_upto(commits, w, text_weight(f), i, j)
            + (if commits[i].files@[j].binary { 0int } else { 1int }),
        last_touch_upto(commits, w, f, i, j + 1) == (if last_touch_upto(commits, w, f, i, j)
            >= commits[i].time {
            last_touch_upto(commits, w, f, i, j)
        } else {
            commits[i].time
        }),
{
    lemma_sum_upto_next_file(commits, w, adds_weight(f), i, j);
    lemma_sum_upto_next_file(commits, w, dels_weight(f), i, j);
    lemma_sum_upto_next_file(commits, w, touch_weight(f), i, j);
    lemma_sum_upto_next_file(commits, w, text_weight(f), i, j);
    lemma_sum_files_step(commits[i], commits[i].files@, touch_weight(f), j);
    lemma_sum_files_nonneg(commits[i], commits[i].files@.take(j), touch_weight(f));
}

/// The churn of any file fits in `u32` when `churn_fits` holds.
pub proof fn lemma_churn_row_fits(commits: Seq<CommitRecord>, w: Window, f: u32)
    requires
        churn_fits(commits, w),
    ensures
        churn_row_of(commits, w, f).adds + churn_row_of(commits, w, f).dels <= u32::MAX,
        churn_row_of(commits, w, f).adds == sum_commits(commits, w, adds_weight(f)),
        churn_row_of(commits, w, f).dels == sum_commits(commits, w, dels_weight(f)),
{
    lemma_weights_nonneg(f);
    lemma_sum_commits_nonneg(commits, w, adds_weight(f));
    lemma_sum_commits_nonneg(commits, w, dels_weight(f));
    assert(sum_commits(commits, w, adds_weight(f)) + sum_commits(commits, w, dels_weight(f)) <= u32::MAX);
}

/// `rows` is the churn of `commits` inside `w`: the row of every file
/// touched there, once, largest churn first (equal churn: smallest file id
/// first).
pub open spec fn is_churn_of(rows: Seq<ChurnRow>, commits: Seq<CommitRecord>, w: Window) -> bool {
    &&& forall|k: int|
        0 <= k < rows.len() ==> #[trigger] rows[k] == churn_row_of(commits, w, rows[k].file.0) && file_touches(
            commits,
            w,
            rows[k].file.0,
        ) > 0
    &&& forall|f: u32| file_touches(commits, w, f) > 0 ==> exists|k: int| 0 <= k < rows.len() && #[trigger] rows[k].file.0 == f
    &&& sorted_strict(rows)
}

/// The churn rows of `commits` inside `w` (one arrangement only meets
/// `is_churn_of`: see `lemma_churn_unique`).
pub open spec fn churn_rows(commits: Seq<CommitRecord>, w: Window) -> Seq<ChurnRow> {
    choose|rows: Seq<ChurnRow>| is_churn_of(rows, commits, w)
}

/// The churn of a history is determined: two row sequences that both meet
/// `is_churn_of` for the same commits and window are equal.
pub proof fn lemma_churn_unique(a: Seq<ChurnRow>, b: Seq<ChurnRow>, commits: Seq<CommitRecord>, w: Window)
    requires
        is_churn_of(a, commits, w),
        is_churn_of(b, commits, w),
    ensures
        a == b,
{
    assert forall|x: ChurnRow| a.contains(x) <==> b.contains(x) by {
        if a.contains(x) {
            let i = choose|i: int| 0 <= i < a.len() && a[i] == x;
            assert(file_touches(commits, w, a[i].file.0) > 0);
            let j = choose|j: int| 0 <= j < b.len() && #[trigger] b[j].file.0 == x.file.0;
            assert(b[j] == x);
        }
        if b.contains(x) {
            let i = choose|i: int| 0 <= i < b.len() && b[i] == x;
            assert(file_touches(commits, w, b[i].file.0) > 0);
            let j = choose|j: int| 0 <= j < a.len() && #[trigger] a[j].file.0 == x.file.0;
            assert(a[j] == x);
        }
    }
    lemma_sorted_unique(a, b);
}

/// Churn of every file touched inside the window, largest churn first
/// (equal churn: smallest file id first).
pub fn churn(history: &History, window: Window) -> (rows: Vec<ChurnRow>)
    requires
        churn_fits(history.commits@, window),
    ensures
        is_churn_of(rows@, history.commits@, window),
        rows@ == churn_rows(history.commits@, window),
{
    let ghost cs = history.commits@;
    let mut index: HashMapWithView<u32, usize> = HashMapWithView::new();
    let mut rows: Vec<ChurnRow> = Vec::new();
    let mut i: usize = 0;
    while i < history.commits.len()
        invariant
            cs == history.commits@,
            churn_fits(cs, window),
            i <= cs.len(),
            forall|f: u32|
                #[trigger] index@.contains_key(f) <==> file_touches(cs.take(i as int), window, f)
                    > 0,
            forall|f: u32|
                #[trigger] index@.contains_key(f) ==> index@[f] < rows@.len() && rows@[index@[f] as int].file.0
                    == f,
            forall|k: int|
                0 <= k < rows@.len() ==> index@.contains_key(#[trigger] rows@[k].file.0) && index@[rows@[k].file.0]
                    == k && rows@[k] == churn_row_of(cs.take(i as int), window, rows@[k].file.0),
        decreases cs.len() - i,
    {
        let record = &history.commits[i];
        if window.includes(record.time) {
            proof {
                assert forall|f: u32| #[trigger] index@.contains_key(f) implies churn_row_upto(cs, window, f, i as int, 0)
                    == churn_row_of(cs.take(i as int), window, f) by {
                    lemma_upto_start(cs, window, f, i as int);
                }
                assert forall|f: u32| file_touches(cs.take(i as int), window, f) == sum_upto(cs, window, touch_weight(f), i as int, 0) by {
                    lemma_sum_upto_start(cs, window, touch_weight(f), i as int);
                }
            }
            let mut j: usize = 0;
            while j < record.files.len()
                invariant
                    cs == history.commits@,
                    churn_fits(cs, window),
                    i < cs.len(),
                    *record == cs[i as int],
                    window.spec_includes(record.time),
                    j <= record.files@.len(),
                    forall|f: u32|
                        #[trigger] index@.contains_key(f) <==> sum_upto(cs, window, touch_weight(f), i as int, j as int)
                            > 0,
                    forall|f: u32|
                        #[trigger] index@.contains_key(f) ==> index@[f] < rows@.len() && rows@[index@[f] as int].file.0
                            == f,
                    forall|k: int|
                        0 <= k < rows@.len() ==> index@.contains_key(#[trigger] rows@[k].file.0)
                            && index@[rows@[k].file.0] == k && rows@[k] == churn_row_upto(
                            cs,
                            window,
                            rows@[k].file.0,
                            i as int,
                            j as int,
                        ),
                decreases record.files@.len() - j,
            {
                let stat = record.files[j];
                let f = stat.file.0;
                let ghost jj = j as int;
                let ghost ii = i as int;
                proof {
                    lemma_weights_nonneg(f);
                    lemma_upto_same_file(cs, window, f, ii, jj);
                    lemma_sum_upto_bound(cs, window, adds_weight(f), ii, jj + 1);
                    lemma_sum_upto_bound(cs, window, dels_weight(f), ii, jj + 1);
                    lemma_sum_upto_bound(cs, window, touch_weight(f), ii, jj + 1);
                    lemma_sum_upto_bound(cs, window, text_weight(f), ii, jj + 1);
                    lemma_sum_upto_bound(cs, window, touch_weight(f), ii, jj);
                    lemma_sum_upto_bound(cs, window, adds_weight(f), ii, jj);
                    lemma_sum_upto_bound(cs, window, dels_weight(f), ii, jj);
                    lemma_sum_upto_bound(cs, window, text_weight(f), ii, jj);
                    assert(stat == cs[ii].files@[jj]);
                    assert(sum_commits(cs, window, adds_weight(f)) + sum_commits(cs, window, dels_weight(f))
                        <= u32::MAX);
                    assert forall|g: u32| g != f implies churn_row_upto(cs, window, g, ii, jj + 1)
                        == churn_row_upto(cs, window, g, ii, jj) && sum_upto(cs, window, touch_weight(g), ii, jj + 1)
                        == sum_upto(cs, window, touch_weight(g), ii, jj) by {
                        lemma_upto_other_file(cs, window, g, ii, jj);
                        lemma_sum_upto_next_file(cs, window, touch_weight(g), ii, jj);
                    }
                }
                let ghost old_rows = rows@;
                let ghost old_index = index@;
                match index.get(&f) {
                    Some(k) => {
                        let k = *k;
                        let row = rows[k];
                        assert(row == churn_row_upto(cs, window, f, ii, jj));
                        let last = if row.last_time >= record.time {
                            row.last_time
                        } else {
                            record.time
                        };
                        let new_row = ChurnRow {
                            file: row.file,
                            adds: row.adds + stat.adds,
                            dels: row.dels + stat.dels,
                            touches: row.touches + 1,
                            last_time: last,
                            binary: row.binary && stat.binary,
                        };
                        rows.set(k, new_row);
                        proof {
                            assert(rows@[k as int] == churn_row_upto(cs, window, f, ii, jj + 1));
                            assert forall|q: int| 0 <= q < rows@.len() implies index@.contains_key(
                                #[trigger] rows@[q].file.0,
                            ) && index@[rows@[q].file.0] == q && rows@[q] == churn_row_upto(
                                cs,
                                window,
                                rows@[q].file.0,
                                ii,
                                jj + 1,
                            ) by {
                                if q != k {
                                    assert(rows@[q] == old_rows[q]);
                                }
                            }
                        }
                    },
                    None => {
                        proof {
                            lemma_sum_upto_bound(cs, window, touch_weight(f), ii, jj);
                            lemma_sum_commits_nonneg(cs.take(ii), window, touch_weight(f));
                            lemma_sum_files_nonneg(cs[ii], cs[ii].files@.take(jj), touch_weight(f));
                            lemma_last_touch_untouched(cs.take(ii), window, f);
                            lemma_untouched_commits(cs.take(ii), window, f, adds_weight(f));
                            lemma_untouched_commits(cs.take(ii), window, f, dels_weight(f));
                            lemma_untouched_commits(cs.take(ii), window, f, text_weight(f));
                            lemma_untouched_files(cs[ii], cs[ii].files@.take(jj), f, adds_weight(f));
                            lemma_untouched_files(cs[ii], cs[ii].files@.take(jj), f, dels_weight(f));
                            lemma_untouched_files(cs[ii], cs[ii].files@.take(jj), f, text_weight(f));
                            lemma_sum_upto_start(cs, window, touch_weight(f), ii);
                            lemma_sum_files_nonneg(cs[ii], cs[ii].files@.take(jj), touch_weight(f));
                            lemma_sum_upto_bound(cs, window, adds_weight(f), ii, jj);
                            lemma_sum_upto_bound(cs, window, dels_weight(f), ii, jj);
                            lemma_sum_upto_bound(cs, window, text_weight(f), ii, jj);
                            lemma_sum_upto_start(cs, window, adds_weight(f), ii);
                            lemma_sum_upto_start(cs, window, dels_weight(f), ii);
                            lemma_sum_upto_start(cs, window, text_weight(f), ii);
                            lemma_sum_commits_nonneg(cs.take(ii), window, adds_weight(f));
                            lemma_sum_commits_nonneg(cs.take(ii), window, dels_weight(f));
                            lemma_sum_commits_nonneg(cs.take(ii), window, text_weight(f));
                            lemma_sum_files_nonneg(cs[ii], cs[ii].files@.take(jj), adds_weight(f));
                            lemma_sum_files_nonneg(cs[ii], cs[ii].files@.take(jj), dels_weight(f));
                            lemma_sum_files_nonneg(cs[ii], cs[ii].files@.take(jj), text_weight(f));
                        }
                        let last = if 0 >= record.time {
                            0
                        } else {
                            record.time
                        };
                        let new_row = ChurnRow {
                            file: FileId(f),
                            adds: stat.adds,
                            dels: stat.dels,
                            touches: 1,
                            last_time: last,
                            binary: stat.binary,
                        };
                        let pos = rows.len();
                        rows.push(new_row);
                        index.insert(f, pos);
                        proof {
                            assert(rows@[pos as int] == churn_row_upto(cs, window, f, ii, jj + 1));
                            assert forall|q: int| 0 <= q < rows@.len() implies index@.contains_key(
                                #[trigger] rows@[q].file.0,
                            ) && index@[rows@[q].file.0] == q && rows@[q] == churn_row_upto(
                                cs,
                                window,
                                rows@[q].file.0,
                                ii,
                                jj + 1,
                            ) by {
                                if q != pos {
                                    assert(rows@[q] == old_rows[q]);
                                }
                            }
                        }
                    },
                }
                proof {
                    assert forall|g: u32|
                        #[trigger] index@.contains_key(g) <==> sum_upto(cs, window, touch_weight(g), ii, jj + 1)
                            > 0 by {
                        if g != f {
                            lemma_sum_upto_next_file(cs, window, touch_weight(g), ii, jj);
                            assert(index@.contains_key(g) == old_index.contains_key(g));
                        }
                    }
                }
                j = j + 1;
            }
            proof {
                let ii = i as int;
                let n = cs[ii].files@.len() as int;
                assert forall|f: u32| sum_upto(cs, window, touch_weight(f), ii, n) == file_touches(cs.take(ii + 1), window, f) by {
                    lemma_sum_upto_next_commit(cs, window, touch_weight(f), ii);
                }
                assert forall|f: u32| #[trigger] index@.contains_key(f) implies churn_row_upto(cs, window, f, ii, n)
                    == churn_row_of(cs.take(ii + 1), window, f) by {
                    lemma_upto_end(cs, window, f, ii);
                }
            }
        } else {
            proof {
                let ii = i as int;
                assert(cs.take(ii + 1).drop_last() =~= cs.take(ii));
                assert forall|f: u32| churn_row_of(cs.take(ii + 1), window, f) == churn_row_of(cs.take(ii), window, f) by {}
            }
        }
        i = i + 1;
    }
    proof {
        assert(cs.take(i as int) =~= cs);
        assert forall|a: int, b: int|
            0 <= a < rows@.len() && 0 <= b < rows@.len() && a != b implies #[trigger] rows@[a].before(rows@[b])
            || #[trigger] rows@[b].before(rows@[a]) by {
            assert(index@[rows@[a].file.0] == a);
            assert(index@[rows@[b].file.0] == b);
        }
    }
    let ghost unsorted = rows@;
    let sorted = sort_strict(rows);
    proof {
        assert forall|k: int|
            0 <= k < sorted@.len() implies #[trigger] sorted@[k] == churn_row_of(
                cs,
                window,
                sorted@[k].file.0,
            ) && file_touches(cs, window, sorted@[k].file.0) > 0 by {
            assert(sorted@.contains(sorted@[k]));
            let q = choose|q: int| 0 <= q < unsorted.len() && unsorted[q] == sorted@[k];
            assert(index@.contains_key(unsorted[q].file.0));
        }
        assert forall|f: u32|
            file_touches(cs, window, f) > 0 implies exists|k: int|
                0 <= k < sorted@.len() && #[trigger] sorted@[k].file.0 == f by {
            assert(index@.contains_key(f));
            let q = index@[f] as int;
            assert(unsorted.contains(unsorted[q]));
            assert(sorted@.contains(unsorted[q]));
            let k = choose|k: int| 0 <= k < sorted@.len() && sorted@[k] == unsorted[q];
            assert(sorted@[k].file.0 == f);
        }
        assert(is_churn_of(sorted@, cs, window));
        lemma_churn_unique(sorted@, churn_rows(cs, window), cs, window);
    }
    sorted
}


/// Churn rows go by lines added plus deleted, largest first, and equal
/// churn by file id, smallest first.
pub proof fn lemma_churn_rows_largest_first(rows: Seq<ChurnRow>, commits: Seq<CommitRecord>, w: Window)
    requires
        is_churn_of(rows, commits, w),
    ensures
        forall|i: int, j: int|
            #![trigger rows[i], rows[j]]
            0 <= i < j < rows.len() ==> rows[i].adds + rows[i].dels > rows[j].adds + rows[j].dels || (rows[i].adds
                + rows[i].dels == rows[j].adds + rows[j].dels && rows[i].file.0 < rows[j].file.0),
{
    assert forall|i: int, j: int|
        #![trigger rows[i], rows[j]]
        0 <= i < j < rows.len() implies rows[i].adds + rows[i].dels > rows[j].adds + rows[j].dels || (rows[i].adds
            + rows[i].dels == rows[j].adds + rows[j].dels && rows[i].file.0 < rows[j].file.0) by {
        assert(rows[i].before(rows[j]));
    }
}


/// A commit outside the window changes no churn row.
pub proof fn lemma_churn_outside_window(cs: Seq<CommitRecord>, c: CommitRecord, w: Window, f: u32)
    requires
        !w.spec_includes(c.time),
    ensures
        churn_row_of(cs.push(c), w, f) == churn_row_of(cs, w, f),
        file_touches(cs.push(c), w, f) == file_touches(cs, w, f),
{
    assert(cs.push(c).drop_last() =~= cs);
}

pub(crate) proof fn lemma_one_commit_one_stat(c: CommitRecord, w: Window, g: Weight)
    requires
        w.spec_includes(c.time),
        c.files@.len() == 1,
    ensures
        sum_commits(seq![c], w, g) == g(c, c.files@[0]),
{
    let one = seq![c];
    assert(one.drop_last() =~= Seq::<CommitRecord>::empty());
    assert(c.files@.drop_last() =~= Seq::<FileStat>::empty());
    assert(one.last() == c);
    assert(c.files@.last() == c.files@[0]);
    assert(sum_files(c, c.files@.drop_last(), g) == 0);
    assert(sum_commits(one.drop_last(), w, g) == 0);
}

/// One commit in the window whose only stat is on file `f` gives `f` a row
/// with that stat's added and deleted lines and one touch.
pub proof fn lemma_churn_of_one_stat(c: CommitRecord, w: Window, f: u32)
    requires
        w.spec_includes(c.time),
        c.files@.len() == 1,
        c.files@[0].file.0 == f,
    ensures
        churn_row_of(seq![c], w, f).adds == c.files@[0].adds,
        churn_row_of(seq![c], w, f).dels == c.files@[0].dels,
        churn_row_of(seq![c], w, f).touches == 1,
        file_touches(seq![c], w, f) == 1,
        churn_row_of(seq![c], w, f).binary == c.files@[0].binary,
{
    lemma_one_commit_one_stat(c, w, adds_weight(f));
    lemma_one_commit_one_stat(c, w, dels_weight(f));
    lemma_one_commit_one_stat(c, w, touch_weight(f));
    lemma_one_commit_one_stat(c, w, text_weight(f));
}

} // verus!
