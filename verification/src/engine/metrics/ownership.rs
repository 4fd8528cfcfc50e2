//! Ownership by commits (not blame): the lines an author added to a file
//! that nobody else deleted, `kept[a, f] = max(0, adds[a, f] - dels[others, f])`.
//!
//! This module computes the kept lines of every author of every file; the
//! shares, the bus factor and the risk ranking are fractions and are
//! derived from these integers by the caller.

use vstd::prelude::*;
use vstd::hash_map::HashMapWithView;
use crate::engine::metrics::{
    lemma_gated_commits, lemma_gated_files, lemma_sum_commits_nonneg, lemma_sum_files_nonneg,
    lemma_sum_files_step, lemma_sum_upto_advance, lemma_sum_upto_bound, lemma_sum_upto_end,
    lemma_sum_upto_monotone, lemma_sum_upto_next_file, lemma_sum_upto_zero, nonnegative,
    sum_commits, sum_upto, Weight, Window,
};
use crate::engine::metrics::churn::{adds_weight, churn_fits, dels_weight, file_touches, lemma_one_commit_one_stat, touch_weight};
use crate::engine::model::{AuthorId, CommitRecord, FileId, FileStat, History};
use crate::order::{same_elements, sort_strict, sorted_strict, StrictOrder};

verus! {

broadcast use vstd::std_specs::hash::group_hash_axioms;

pub open spec fn author_adds_weight(f: u32, a: u32) -> Weight {
    |c: CommitRecord, s: FileStat| if s.file.0 == f && c.author.0 == a { s.adds as int } else { 0 }
}

pub open spec fn author_dels_weight(f: u32, a: u32) -> Weight {
    |c: CommitRecord, s: FileStat| if s.file.0 == f && c.author.0 == a { s.dels as int } else { 0 }
}

pub open spec fn author_touch_weight(f: u32, a: u32) -> Weight {
    |c: CommitRecord, s: FileStat| if s.file.0 == f && c.author.0 == a { 1int } else { 0 }
}

/// Stats of author `a` on file `f` inside the window.
pub open spec fn author_touches(cs: Seq<CommitRecord>, w: Window, f: u32, a: u32) -> int {
    sum_commits(cs, w, author_touch_weight(f, a))
}

/// Lines `a` added to `f` that the other authors did not delete (at least 0).
pub open spec fn kept_lines(cs: Seq<CommitRecord>, w: Window, f: u32, a: u32) -> int {
    let adds = sum_commits(cs, w, author_adds_weight(f, a));
    let others = sum_commits(cs, w, dels_weight(f)) - sum_commits(cs, w, author_dels_weight(f, a));
    if adds > others {
        adds - others
    } else {
        0
    }
}

/// Sum of the kept lines of `s`.
pub open spec fn sum_shares(s: Seq<(AuthorId, u32)>) -> int
    decreases s.len(),
{
    if s.len() == 0 {
        0
    } else {
        sum_shares(s.drop_last()) + s.last().1
    }
}

/// Kept lines per author of one file.
#[derive(Debug, Clone, PartialEq, Eq)]
pub struct OwnershipShares {
    pub file: FileId,
    /// (author, kept lines), authors with kept lines only, most lines first.
    pub shares: Vec<(AuthorId, u32)>,
    /// Sum of the kept lines.
    pub kept_total: u32,
}

/// Shares go by kept lines, most first; equal lines by author id.
impl StrictOrder for (AuthorId, u32) {
    open spec fn before(self, other: Self) -> bool {
        self.1 > other.1 || (self.1 == other.1 && self.0.0 < other.0.0)
    }

    fn is_before(&self, other: &Self) -> (r: bool) {
        self.1 > other.1 || (self.1 == other.1 && (self.0).0 < (other.0).0)
    }

    proof fn lemma_strict(a: Self, b: Self, c: Self) {
    }
}

/// Rows go by file id.
impl StrictOrder for OwnershipShares {
    open spec fn before(self, other: Self) -> bool {
        self.file.0 < other.file.0
    }

    fn is_before(&self, other: &Self) -> (r: bool) {
        self.file.0 < other.file.0
    }

    proof fn lemma_strict(a: Self, b: Self, c: Self) {
    }
}

/// `row` holds the kept lines of every author of its file that kept any.
pub open spec fn shares_of_file(row: OwnershipShares, cs: Seq<CommitRecord>, w: Window) -> bool {
    let f = row.file.0;
    &&& forall|q: int|
        0 <= q < row.shares@.len() ==> {
            let a = (#[trigger] row.shares@[q]).0.0;
            &&& row.shares@[q].1 == kept_lines(cs, w, f, a)
            &&& kept_lines(cs, w, f, a) > 0
            &&& author_touches(cs, w, f, a) > 0
        }
    &&& forall|a: u32|
        #![trigger kept_lines(cs, w, f, a)]
        author_touches(cs, w, f, a) > 0 && kept_lines(cs, w, f, a) > 0 ==> exists|q: int|
            0 <= q < row.shares@.len() && (#[trigger] row.shares@[q]).0.0 == a
    &&& sorted_strict(row.shares@)
    &&& row.kept_total == sum_shares(row.shares@)
}

// ------------------------------------------------------------------
// Accumulation
// ------------------------------------------------------------------

/// Per file: (author, adds, dels) of each author, and all deletions.
struct FileAcc {
    file: u32,
    entries: Vec<(u32, u32, u32)>,
    dels_total: u32,
}

spec fn entries_adds(e: Seq<(u32, u32, u32)>) -> int
    decreases e.len(),
{
    if e.len() == 0 {
        0
    } else {
        entries_adds(e.drop_last()) + e.last().1
    }
}

proof fn lemma_entries_adds_update(e: Seq<(u32, u32, u32)>, k: int, x: (u32, u32, u32))
    requires
        0 <= k < e.len(),
    ensures
        entries_adds(e.update(k, x)) == entries_adds(e) - e[k].1 + x.1,
    decreases e.len(),
{
    if k == e.len() - 1 {
        assert(e.update(k, x).drop_last() =~= e.drop_last());
    } else {
        assert(e.update(k, x).drop_last() =~= e.drop_last().update(k, x));
        lemma_entries_adds_update(e.drop_last(), k, x);
    }
}

proof fn lemma_entries_adds_bound(e: Seq<(u32, u32, u32)>, k: int)
    requires
        0 <= k < e.len(),
    ensures
        e[k].1 <= entries_adds(e),
        entries_adds(e.take(k)) + e[k].1 <= entries_adds(e),
    decreases e.len(),
{
    lemma_entries_adds_nonneg(e.drop_last());
    if k < e.len() - 1 {
        lemma_entries_adds_bound(e.drop_last(), k);
        assert(e.drop_last().take(k) =~= e.take(k));
    } else {
        assert(e.take(k) =~= e.drop_last());
    }
}

proof fn lemma_entries_adds_nonneg(e: Seq<(u32, u32, u32)>)
    ensures
        entries_adds(e) >= 0,
    decreases e.len(),
{
    if e.len() > 0 {
        lemma_entries_adds_nonneg(e.drop_last());
    }
}

/// The accumulator of file `acc.file` after the first `i` commits and the
/// first `j` stats of commit `i`.
spec fn acc_at(acc: FileAcc, cs: Seq<CommitRecord>, w: Window, i: int, j: int) -> bool {
    let f = acc.file;
    &&& acc.dels_total == sum_upto(cs, w, dels_weight(f), i, j)
    &&& forall|k: int, l: int|
        0 <= k < l < acc.entries@.len() ==> (#[trigger] acc.entries@[k]).0 != (
        #[trigger] acc.entries@[l]).0
    &&& forall|k: int|
        0 <= k < acc.entries@.len() ==> {
            let a = (#[trigger] acc.entries@[k]).0;
            &&& acc.entries@[k].1 == sum_upto(cs, w, author_adds_weight(f, a), i, j)
            &&& acc.entries@[k].2 == sum_upto(cs, w, author_dels_weight(f, a), i, j)
            &&& acc.entries@[k].2 <= acc.dels_total
            &&& sum_upto(cs, w, author_touch_weight(f, a), i, j) > 0
        }
    &&& forall|a: u32|
        #[trigger] sum_upto(cs, w, author_touch_weight(f, a), i, j) > 0 ==> exists|k: int|
            0 <= k < acc.entries@.len() && (#[trigger] acc.entries@[k]).0 == a
    &&& entries_adds(acc.entries@) == sum_upto(cs, w, adds_weight(f), i, j)
}

proof fn lemma_weights_gated(f: u32)
    ensures
        forall|a: u32, c: CommitRecord, s: FileStat| #[trigger] author_adds_weight(f, a)(c, s) != 0 ==> s.file.0 == f,
        forall|a: u32, c: CommitRecord, s: FileStat| #[trigger] author_dels_weight(f, a)(c, s) != 0 ==> s.file.0 == f,
        forall|a: u32, c: CommitRecord, s: FileStat| #[trigger] author_touch_weight(f, a)(c, s) != 0 ==> s.file.0 == f,
        forall|c: CommitRecord, s: FileStat| #[trigger] adds_weight(f)(c, s) != 0 ==> s.file.0 == f,
        forall|c: CommitRecord, s: FileStat| #[trigger] dels_weight(f)(c, s) != 0 ==> s.file.0 == f,
        forall|c: CommitRecord, s: FileStat| #[trigger] touch_weight(f)(c, s) == if s.file.0 == f { 1int } else { 0 },
{
}

/// A stat on another file leaves the accumulator of `acc.file` as it was.
proof fn lemma_acc_other_file(acc: FileAcc, cs: Seq<CommitRecord>, w: Window, i: int, j: int)
    requires
        acc_at(acc, cs, w, i, j),
        0 <= i < cs.len(),
        0 <= j < cs[i].files@.len(),
        cs[i].files@[j].file.0 != acc.file,
    ensures
        acc_at(acc, cs, w, i, j + 1),
{
    let f = acc.file;
    lemma_sum_upto_next_file(cs, w, dels_weight(f), i, j);
    lemma_sum_upto_next_file(cs, w, adds_weight(f), i, j);
    assert forall|a: u32| #[trigger] sum_upto(cs, w, author_touch_weight(f, a), i, j + 1) == sum_upto(
        cs,
        w,
        author_touch_weight(f, a),
        i,
        j,
    ) && sum_upto(cs, w, author_adds_weight(f, a), i, j + 1) == sum_upto(
        cs,
        w,
        author_adds_weight(f, a),
        i,
        j,
    ) && sum_upto(cs, w, author_dels_weight(f, a), i, j + 1) == sum_upto(
        cs,
        w,
        author_dels_weight(f, a),
        i,
        j,
    ) by {
        lemma_sum_upto_next_file(cs, w, author_touch_weight(f, a), i, j);
        lemma_sum_upto_next_file(cs, w, author_adds_weight(f, a), i, j);
        lemma_sum_upto_next_file(cs, w, author_dels_weight(f, a), i, j);
    }
    assert(acc.dels_total == sum_upto(cs, w, dels_weight(f), i, j + 1));
    assert(entries_adds(acc.entries@) == sum_upto(cs, w, adds_weight(f), i, j + 1));
    assert forall|k: int| 0 <= k < acc.entries@.len() implies {
        let a = (#[trigger] acc.entries@[k]).0;
        &&& acc.entries@[k].1 == sum_upto(cs, w, author_adds_weight(f, a), i, j + 1)
        &&& acc.entries@[k].2 == sum_upto(cs, w, author_dels_weight(f, a), i, j + 1)
        &&& acc.entries@[k].2 <= acc.dels_total
        &&& sum_upto(cs, w, author_touch_weight(f, a), i, j + 1) > 0
    } by {
        let a = acc.entries@[k].0;
        assert(sum_upto(cs, w, author_touch_weight(f, a), i, j + 1) == sum_upto(cs, w, author_touch_weight(f, a), i, j));
    }
}

/// Moving to the next commit keeps the accumulator in step (when the commit
/// is outside the window, nothing was added).
proof fn lemma_acc_advance(acc: FileAcc, cs: Seq<CommitRecord>, w: Window, i: int)
    requires
        0 <= i < cs.len(),
        acc_at(
            acc,
            cs,
            w,
            i,
            if w.spec_includes(cs[i].time) {
                cs[i].files@.len() as int
            } else {
                0
            },
        ),
    ensures
        acc_at(acc, cs, w, i + 1, 0),
{
    let f = acc.file;
    lemma_sum_upto_advance(cs, w, dels_weight(f), i);
    lemma_sum_upto_advance(cs, w, adds_weight(f), i);
    assert forall|a: u32| #[trigger] sum_upto(cs, w, author_touch_weight(f, a), i + 1, 0) == sum_upto(
        cs,
        w,
        author_touch_weight(f, a),
        i,
        if w.spec_includes(cs[i].time) {
            cs[i].files@.len() as int
        } else {
            0
        },
    ) by {
        lemma_sum_upto_advance(cs, w, author_touch_weight(f, a), i);
    }
    assert forall|k: int| 0 <= k < acc.entries@.len() implies {
        let a = (#[trigger] acc.entries@[k]).0;
        &&& acc.entries@[k].1 == sum_upto(cs, w, author_adds_weight(f, a), i + 1, 0)
        &&& acc.entries@[k].2 == sum_upto(cs, w, author_dels_weight(f, a), i + 1, 0)
    } by {
        let a = acc.entries@[k].0;
        lemma_sum_upto_advance(cs, w, author_adds_weight(f, a), i);
        lemma_sum_upto_advance(cs, w, author_dels_weight(f, a), i);
    }
}

/// Accumulates, per touched file, each author's adds and dels and all dels.
#[verifier::rlimit(40)]
fn accumulate(history: &History, window: Window) -> (accs: Vec<FileAcc>)
    requires
        churn_fits(history.commits@, window),
    ensures
        forall|k: int|
            0 <= k < accs@.len() ==> acc_at(#[trigger] accs@[k], history.commits@, window, history.commits@.len() as int, 0)
                && file_touches(history.commits@, window, accs@[k].file) > 0,
        forall|f: u32|
            file_touches(history.commits@, window, f) > 0 ==> exists|k: int|
                0 <= k < accs@.len() && (#[trigger] accs@[k]).file == f,
        forall|k: int, l: int| 0 <= k < l < accs@.len() ==> (#[trigger] accs@[k]).file != (#[trigger] accs@[l]).file,
{
    let ghost cs = history.commits@;
    let mut index: HashMapWithView<u32, usize> = HashMapWithView::new();
    let mut accs: Vec<FileAcc> = Vec::new();
    let mut i: usize = 0;
    while i < history.commits.len()
        invariant
            cs == history.commits@,
            churn_fits(cs, window),
            i <= cs.len(),
            forall|f: u32|
                #[trigger] index@.contains_key(f) <==> sum_upto(cs, window, touch_weight(f), i as int, 0) > 0,
            forall|f: u32|
                #[trigger] index@.contains_key(f) ==> index@[f] < accs@.len() && accs@[index@[f] as int].file == f,
            forall|k: int|
                0 <= k < accs@.len() ==> index@.contains_key((#[trigger] accs@[k]).file) && index@[accs@[k].file] == k
                    && acc_at(accs@[k], cs, window, i as int, 0),
        decreases cs.len() - i,
    {
        let record = &history.commits[i];
        let ghost ii = i as int;
        let included = window.includes(record.time);
        if included {
            let mut j: usize = 0;
            while j < record.files.len()
                invariant
                    cs == history.commits@,
                    churn_fits(cs, window),
                    i < cs.len(),
                    ii == i,
                    *record == cs[ii],
                    window.spec_includes(record.time),
                    j <= record.files@.len(),
                    forall|f: u32|
                        #[trigger] index@.contains_key(f) <==> sum_upto(cs, window, touch_weight(f), ii, j as int) > 0,
                    forall|f: u32|
                        #[trigger] index@.contains_key(f) ==> index@[f] < accs@.len() && accs@[index@[f] as int].file == f,
                    forall|k: int|
                        0 <= k < accs@.len() ==> index@.contains_key((#[trigger] accs@[k]).file)
                            && index@[accs@[k].file] == k && acc_at(accs@[k], cs, window, ii, j as int),
                decreases record.files@.len() - j,
            {
                let stat = record.files[j];
                let f = stat.file.0;
                let a = record.author.0;
                let ghost jj = j as int;
                proof {
                    lemma_weights_gated(f);
                    assert(stat == cs[ii].files@[jj]);
                    assert forall|g: u32| g != f implies #[trigger] sum_upto(cs, window, touch_weight(g), ii, jj + 1)
                        == sum_upto(cs, window, touch_weight(g), ii, jj) by {
                        lemma_sum_upto_next_file(cs, window, touch_weight(g), ii, jj);
                    }
                    lemma_sum_upto_next_file(cs, window, touch_weight(f), ii, jj);
                    lemma_sum_upto_next_file(cs, window, dels_weight(f), ii, jj);
                    lemma_sum_upto_next_file(cs, window, adds_weight(f), ii, jj);
                    lemma_sum_upto_next_file(cs, window, author_adds_weight(f, a), ii, jj);
                    lemma_sum_upto_next_file(cs, window, author_dels_weight(f, a), ii, jj);
                    lemma_sum_upto_next_file(cs, window, author_touch_weight(f, a), ii, jj);
                    assert(nonnegative(dels_weight(f)));
                    assert(nonnegative(adds_weight(f)));
                    lemma_sum_upto_bound(cs, window, dels_weight(f), ii, jj + 1);
                    lemma_sum_upto_bound(cs, window, adds_weight(f), ii, jj + 1);
                    lemma_sum_upto_bound(cs, window, dels_weight(f), ii, jj);
                    lemma_sum_upto_bound(cs, window, adds_weight(f), ii, jj);
                    assert(sum_commits(cs, window, adds_weight(f)) + sum_commits(cs, window, dels_weight(f))
                        <= u32::MAX);
                    assert forall|q: int| 0 <= q < accs@.len() && accs@[q].file != f implies acc_at(
                        #[trigger] accs@[q],
                        cs,
                        window,
                        ii,
                        jj + 1,
                    ) by {
                        lemma_acc_other_file(accs@[q], cs, window, ii, jj);
                    }
                }
                let ghost old_accs = accs@;
                let ghost old_index = index@;
                match index.get(&f) {
                    Some(k) => {
                        let k = *k;
                        let ghost acc0 = accs@[k as int];
                        assert(acc_at(acc0, cs, window, ii, jj));
                        update_acc(&mut accs[k], a, stat.adds, stat.dels, Ghost(cs), Ghost(window), Ghost(ii), Ghost(jj));
                        proof {
                            assert forall|q: int| 0 <= q < accs@.len() implies index@.contains_key(
                                (#[trigger] accs@[q]).file,
                            ) && index@[accs@[q].file] == q && acc_at(accs@[q], cs, window, ii, jj + 1) by {
                                if q != k {
                                    assert(accs@[q] == old_accs[q]);
                                }
                            }
                        }
                    },
                    None => {
                        proof {
                            lemma_sum_upto_zero(cs, window, touch_weight(f), ii);
                            lemma_sum_commits_nonneg(cs.take(ii), window, touch_weight(f));
                            lemma_sum_files_nonneg(cs[ii], cs[ii].files@.take(jj), touch_weight(f));
                            assert(sum_commits(cs.take(ii), window, touch_weight(f)) == 0);
                            assert(crate::engine::metrics::sum_files(cs[ii], cs[ii].files@.take(jj), touch_weight(f)) == 0);
                            lemma_gated_commits(cs.take(ii), window, f, dels_weight(f), touch_weight(f));
                            lemma_gated_commits(cs.take(ii), window, f, adds_weight(f), touch_weight(f));
                            lemma_gated_files(cs[ii], cs[ii].files@.take(jj), f, dels_weight(f), touch_weight(f));
                            lemma_gated_files(cs[ii], cs[ii].files@.take(jj), f, adds_weight(f), touch_weight(f));
                            assert forall|b: u32|
                                #![trigger author_touch_weight(f, b)]
                                sum_upto(cs, window, author_touch_weight(f, b), ii, jj) == 0
                                    && sum_upto(cs, window, author_adds_weight(f, b), ii, jj) == 0
                                    && sum_upto(cs, window, author_dels_weight(f, b), ii, jj) == 0 by {
                                lemma_gated_commits(cs.take(ii), window, f, author_touch_weight(f, b), touch_weight(f));
                                lemma_gated_commits(cs.take(ii), window, f, author_adds_weight(f, b), touch_weight(f));
                                lemma_gated_commits(cs.take(ii), window, f, author_dels_weight(f, b), touch_weight(f));
                                lemma_gated_files(cs[ii], cs[ii].files@.take(jj), f, author_touch_weight(f, b), touch_weight(f));
                                lemma_gated_files(cs[ii], cs[ii].files@.take(jj), f, author_adds_weight(f, b), touch_weight(f));
                                lemma_gated_files(cs[ii], cs[ii].files@.take(jj), f, author_dels_weight(f, b), touch_weight(f));
                            }
                        }
                        let mut entries: Vec<(u32, u32, u32)> = Vec::new();
                        entries.push((a, stat.adds, stat.dels));
                        let acc = FileAcc { file: f, entries, dels_total: stat.dels };
                        proof {
                            assert(acc.entries@[0] == (a, stat.adds, stat.dels));
                            assert(entries_adds(acc.entries@) == stat.adds) by {
                                assert(acc.entries@.drop_last() =~= Seq::<(u32, u32, u32)>::empty());
                                assert(entries_adds(Seq::<(u32, u32, u32)>::empty()) == 0);
                            }
                            assert forall|b: u32|
                                #[trigger] sum_upto(cs, window, author_touch_weight(f, b), ii, jj + 1) > 0 implies exists|k: int|
                                    0 <= k < acc.entries@.len() && (#[trigger] acc.entries@[k]).0 == b by {
                                lemma_sum_upto_next_file(cs, window, author_touch_weight(f, b), ii, jj);
                                assert(acc.entries@[0].0 == a);
                            }
                            assert(acc_at(acc, cs, window, ii, jj + 1));
                        }
                        let pos = accs.len();
                        accs.push(acc);
                        index.insert(f, pos);
                        proof {
                            assert forall|q: int| 0 <= q < accs@.len() implies index@.contains_key(
                                (#[trigger] accs@[q]).file,
                            ) && index@[accs@[q].file] == q && acc_at(accs@[q], cs, window, ii, jj + 1) by {
                                if q != pos {
                                    assert(accs@[q] == old_accs[q]);
                                }
                            }
                        }
                    },
                }
                proof {
                    assert forall|g: u32|
                        #[trigger] index@.contains_key(g) <==> sum_upto(cs, window, touch_weight(g), ii, jj + 1) > 0 by {
                        if g != f {
                            assert(index@.contains_key(g) == old_index.contains_key(g));
                        }
                    }
                }
                j = j + 1;
            }
        }
        proof {
            let ii = i as int;
            let end = if window.spec_includes(cs[ii].time) {
                cs[ii].files@.len() as int
            } else {
                0
            };
            assert forall|f: u32| #[trigger] sum_upto(cs, window, touch_weight(f), ii + 1, 0) == sum_upto(
                cs,
                window,
                touch_weight(f),
                ii,
                end,
            ) by {
                lemma_sum_upto_advance(cs, window, touch_weight(f), ii);
            }
            assert forall|k: int| 0 <= k < accs@.len() implies acc_at(#[trigger] accs@[k], cs, window, ii + 1, 0) by {
                lemma_acc_advance(accs@[k], cs, window, ii);
            }
        }
        i = i + 1;
    }
    proof {
        assert forall|f: u32| #[trigger] sum_upto(cs, window, touch_weight(f), cs.len() as int, 0) == file_touches(cs, window, f) by {
            lemma_sum_upto_end(cs, window, touch_weight(f));
        }
        assert forall|k: int, l: int| 0 <= k < l < accs@.len() implies (#[trigger] accs@[k]).file != (#[trigger] accs@[l]).file by {
            assert(index@[accs@[k].file] == k);
            assert(index@[accs@[l].file] == l);
        }
        assert forall|f: u32| file_touches(cs, window, f) > 0 implies exists|k: int|
            0 <= k < accs@.len() && (#[trigger] accs@[k]).file == f by {
            assert(index@.contains_key(f));
            assert(accs@[index@[f] as int].file == f);
        }
    }
    accs
}

/// Adds a stat of author `a` (inside the window) to the accumulator of its file.
#[verifier::rlimit(40)]
fn update_acc(
    acc: &mut FileAcc,
    a: u32,
    adds: u32,
    dels: u32,
    Ghost(cs): Ghost<Seq<CommitRecord>>,
    Ghost(w): Ghost<Window>,
    Ghost(i): Ghost<int>,
    Ghost(j): Ghost<int>,
)
    requires
        acc_at(*old(acc), cs, w, i, j),
        0 <= i < cs.len(),
        0 <= j < cs[i].files@.len(),
        w.spec_includes(cs[i].time),
        cs[i].files@[j].file.0 == old(acc).file,
        cs[i].author.0 == a,
        cs[i].files@[j].adds == adds,
        cs[i].files@[j].dels == dels,
        sum_upto(cs, w, dels_weight(old(acc).file), i, j + 1) <= u32::MAX,
        sum_upto(cs, w, adds_weight(old(acc).file), i, j + 1) <= u32::MAX,
        sum_upto(cs, w, dels_weight(old(acc).file), i, j + 1) == sum_upto(cs, w, dels_weight(old(acc).file), i, j) + dels,
        sum_upto(cs, w, adds_weight(old(acc).file), i, j + 1) == sum_upto(cs, w, adds_weight(old(acc).file), i, j) + adds,
    ensures
        acc_at(*final(acc), cs, w, i, j + 1),
        final(acc).file == old(acc).file,
{
    let f = acc.file;
    proof {
        lemma_weights_gated(f);
        lemma_sum_upto_next_file(cs, w, author_adds_weight(f, a), i, j);
        lemma_sum_upto_next_file(cs, w, author_dels_weight(f, a), i, j);
        lemma_sum_upto_next_file(cs, w, author_touch_weight(f, a), i, j);
        assert forall|b: u32| b != a implies #[trigger] sum_upto(cs, w, author_touch_weight(f, b), i, j + 1)
            == sum_upto(cs, w, author_touch_weight(f, b), i, j) && sum_upto(cs, w, author_adds_weight(f, b), i, j + 1)
            == sum_upto(cs, w, author_adds_weight(f, b), i, j) && sum_upto(cs, w, author_dels_weight(f, b), i, j + 1)
            == sum_upto(cs, w, author_dels_weight(f, b), i, j) by {
            lemma_sum_upto_next_file(cs, w, author_touch_weight(f, b), i, j);
            lemma_sum_upto_next_file(cs, w, author_adds_weight(f, b), i, j);
            lemma_sum_upto_next_file(cs, w, author_dels_weight(f, b), i, j);
        }
        lemma_entries_adds_nonneg(acc.entries@);
    }
    let ghost old_entries = acc.entries@;
    acc.dels_total = acc.dels_total + dels;
    let mut k: usize = 0;
    while k < acc.entries.len() && acc.entries[k].0 != a
        invariant
            k <= acc.entries@.len(),
            acc.entries@ == old_entries,
            forall|q: int| 0 <= q < k ==> acc.entries@[q].0 != a,
        decreases acc.entries@.len() - k,
    {
        k = k + 1;
    }
    if k < acc.entries.len() {
        let (_, ad, de) = acc.entries[k];
        proof {
            lemma_entries_adds_bound(old_entries, k as int);
            lemma_entries_adds_update(old_entries, k as int, (a, (ad + adds) as u32, (de + dels) as u32));
        }
        acc.entries.set(k, (a, ad + adds, de + dels));
        proof {
            assert(acc.dels_total == sum_upto(cs, w, dels_weight(f), i, j + 1));
            assert(entries_adds(acc.entries@) == sum_upto(cs, w, adds_weight(f), i, j + 1));
            assert(acc.entries@[k as int].1 == sum_upto(cs, w, author_adds_weight(f, a), i, j + 1));
            assert forall|q: int| 0 <= q < acc.entries@.len() implies {
                let b = (#[trigger] acc.entries@[q]).0;
                &&& acc.entries@[q].1 == sum_upto(cs, w, author_adds_weight(f, b), i, j + 1)
                &&& acc.entries@[q].2 == sum_upto(cs, w, author_dels_weight(f, b), i, j + 1)
                &&& acc.entries@[q].2 <= acc.dels_total
                &&& sum_upto(cs, w, author_touch_weight(f, b), i, j + 1) > 0
            } by {
                if q != k {
                    assert(acc.entries@[q] == old_entries[q]);
                    assert(old_entries[q].0 != acc.entries@[k as int].0);
                    let b = old_entries[q].0;
                    assert(old_entries[q].1 == sum_upto(cs, w, author_adds_weight(f, b), i, j));
                    assert(sum_upto(cs, w, author_touch_weight(f, b), i, j + 1) == sum_upto(cs, w, author_touch_weight(f, b), i, j));
                } else {
                    assert(old_entries[q].0 == a);
                    assert(old_entries[q].1 == sum_upto(cs, w, author_adds_weight(f, a), i, j));
                    assert(acc.entries@[q].2 == sum_upto(cs, w, author_dels_weight(f, a), i, j + 1));
                    assert(acc.entries@[q].2 <= acc.dels_total);
                    assert(sum_upto(cs, w, author_touch_weight(f, a), i, j + 1) > 0);
                }
            }
            assert forall|b: u32|
                #[trigger] sum_upto(cs, w, author_touch_weight(f, b), i, j + 1) > 0 implies exists|q: int|
                    0 <= q < acc.entries@.len() && (#[trigger] acc.entries@[q]).0 == b by {
                if b == a {
                    assert(acc.entries@[k as int].0 == b);
                } else {
                    let q = choose|q: int| 0 <= q < old_entries.len() && (#[trigger] old_entries[q]).0 == b;
                    assert(acc.entries@[q].0 == b);
                }
            }
        }
    } else {
        proof {
            let t = author_touch_weight(f, a);
            assert forall|c: CommitRecord, s: FileStat| #[trigger] t(c, s) >= 0 by {}
            lemma_sum_commits_nonneg(cs.take(i), w, t);
            lemma_sum_files_nonneg(cs[i], cs[i].files@.take(j), t);
            if sum_upto(cs, w, t, i, j) > 0 {
                let q = choose|q: int| 0 <= q < old_entries.len() && (#[trigger] old_entries[q]).0 == a;
                assert(old_entries[q].0 != a);
            }
            assert(sum_upto(cs, w, author_touch_weight(f, a), i, j) == 0);
        }
        let ghost before = acc.entries@;
        acc.entries.push((a, adds, dels));
        proof {
            assert(acc.entries@.drop_last() =~= before);
            assert forall|b: u32|
                #[trigger] sum_upto(cs, w, author_touch_weight(f, b), i, j + 1) > 0 implies exists|q: int|
                    0 <= q < acc.entries@.len() && (#[trigger] acc.entries@[q]).0 == b by {
                if b == a {
                    assert(acc.entries@[before.len() as int].0 == b);
                } else {
                    let q = choose|q: int| 0 <= q < old_entries.len() && (#[trigger] old_entries[q]).0 == b;
                    assert(acc.entries@[q].0 == b);
                }
            }
            // a had no stat before: its sums were zero
            assert(sum_upto(cs, w, author_adds_weight(f, a), i, j) == 0) by {
                lemma_no_touch_no_lines(cs, w, f, a, i, j);
            }
            assert(sum_upto(cs, w, author_dels_weight(f, a), i, j) == 0) by {
                lemma_no_touch_no_lines(cs, w, f, a, i, j);
            }
        }
    }
}

/// An author without a stat on `f` added and deleted nothing there.
proof fn lemma_no_touch_no_lines(cs: Seq<CommitRecord>, w: Window, f: u32, a: u32, i: int, j: int)
    requires
        sum_upto(cs, w, author_touch_weight(f, a), i, j) == 0,
    ensures
        sum_upto(cs, w, author_adds_weight(f, a), i, j) == 0,
        sum_upto(cs, w, author_dels_weight(f, a), i, j) == 0,
{
    let t = author_touch_weight(f, a);
    assert forall|c: CommitRecord, s: FileStat| #[trigger] t(c, s) >= 0 by {}
    lemma_sum_commits_nonneg(cs.take(i), w, t);
    lemma_sum_files_nonneg(cs[i], cs[i].files@.take(j), t);
    lemma_author_gated_commits(cs.take(i), w, f, a);
    if w.spec_includes(cs[i].time) {
        lemma_author_gated_files(cs[i], cs[i].files@.take(j), f, a);
    }
}

proof fn lemma_author_gated_files(c: CommitRecord, files: Seq<FileStat>, f: u32, a: u32)
    requires
        crate::engine::metrics::sum_files(c, files, author_touch_weight(f, a)) == 0,
    ensures
        crate::engine::metrics::sum_files(c, files, author_adds_weight(f, a)) == 0,
        crate::engine::metrics::sum_files(c, files, author_dels_weight(f, a)) == 0,
    decreases files.len(),
{
    if files.len() > 0 {
        let t = author_touch_weight(f, a);
        assert forall|c2: CommitRecord, s: FileStat| #[trigger] t(c2, s) >= 0 by {}
        lemma_sum_files_nonneg(c, files.drop_last(), t);
        lemma_author_gated_files(c, files.drop_last(), f, a);
    }
}

proof fn lemma_author_gated_commits(cs: Seq<CommitRecord>, w: Window, f: u32, a: u32)
    requires
        sum_commits(cs, w, author_touch_weight(f, a)) == 0,
    ensures
        sum_commits(cs, w, author_adds_weight(f, a)) == 0,
        sum_commits(cs, w, author_dels_weight(f, a)) == 0,
    decreases cs.len(),
{
    if cs.len() > 0 {
        let t = author_touch_weight(f, a);
        let c = cs.last();
        assert forall|c2: CommitRecord, s: FileStat| #[trigger] t(c2, s) >= 0 by {}
        lemma_sum_commits_nonneg(cs.drop_last(), w, t);
        lemma_sum_files_nonneg(c, c.files@, t);
        lemma_author_gated_commits(cs.drop_last(), w, f, a);
        if w.spec_includes(c.time) {
            lemma_author_gated_files(c, c.files@, f, a);
        }
    }
}


// ------------------------------------------------------------------
// Shares
// ------------------------------------------------------------------

proof fn lemma_sum_shares_concat(a: Seq<(AuthorId, u32)>, b: Seq<(AuthorId, u32)>)
    ensures
        sum_shares(a + b) == sum_shares(a) + sum_shares(b),
    decreases b.len(),
{
    if b.len() == 0 {
        assert(a + b =~= a);
    } else {
        lemma_sum_shares_concat(a, b.drop_last());
        assert((a + b).drop_last() =~= a + b.drop_last());
    }
}

proof fn lemma_sum_shares_remove(t: Seq<(AuthorId, u32)>, i: int)
    requires
        0 <= i < t.len(),
    ensures
        sum_shares(t) == sum_shares(t.remove(i)) + t[i].1,
{
    let pre = t.subrange(0, i);
    let post = t.subrange(i + 1, t.len() as int);
    assert(t =~= pre + seq![t[i]] + post);
    lemma_sum_shares_concat(pre + seq![t[i]], post);
    lemma_sum_shares_concat(pre, seq![t[i]]);
    lemma_sum_shares_concat(pre, post);
    assert(seq![t[i]].drop_last() =~= Seq::<(AuthorId, u32)>::empty());
    assert(sum_shares(Seq::<(AuthorId, u32)>::empty()) == 0);
    assert(sum_shares(seq![t[i]]) == t[i].1);
}

/// Two duplicate-free sequences with the same elements have the same sum.
proof fn lemma_sum_shares_same(s: Seq<(AuthorId, u32)>, t: Seq<(AuthorId, u32)>)
    requires
        s.no_duplicates(),
        t.no_duplicates(),
        same_elements(s, t),
    ensures
        sum_shares(s) == sum_shares(t),
    decreases s.len(),
{
    if s.len() > 0 {
        let x = s.last();
        assert(s.contains(x)) by {
            assert(s[s.len() - 1] == x);
        }
        assert(t.contains(x));
        let i = choose|i: int| 0 <= i < t.len() && t[i] == x;
        lemma_sum_shares_remove(t, i);
        let s2 = s.drop_last();
        let t2 = t.remove(i);
        assert forall|y: (AuthorId, u32)| s2.contains(y) <==> t2.contains(y) by {
            if s2.contains(y) {
                let k = choose|k: int| 0 <= k < s2.len() && s2[k] == y;
                assert(s[k] == y);
                assert(y != x);
                assert(t.contains(y));
                let m = choose|m: int| 0 <= m < t.len() && t[m] == y;
                if m < i {
                    assert(t2[m] == y);
                } else {
                    assert(m != i);
                    assert(t2[m - 1] == y);
                }
            }
            if t2.contains(y) {
                let m = choose|m: int| 0 <= m < t2.len() && t2[m] == y;
                let mm = if m < i { m } else { m + 1 };
                assert(t[mm] == y);
                assert(y != x);
                assert(s.contains(y));
                let k = choose|k: int| 0 <= k < s.len() && s[k] == y;
                assert(k != s.len() - 1);
                assert(s2[k] == y);
            }
        }
        assert(t2.no_duplicates()) by {
            assert forall|p: int, q: int| 0 <= p < t2.len() && 0 <= q < t2.len() && p != q implies t2[p] != t2[q] by {
                let pp = if p < i { p } else { p + 1 };
                let qq = if q < i { q } else { q + 1 };
                assert(t2[p] == t[pp] && t2[q] == t[qq]);
            }
        }
        lemma_sum_shares_same(s2, t2);
    }
}

proof fn lemma_sum_shares_nonneg_prefix(s: Seq<(AuthorId, u32)>, n: int)
    requires
        0 <= n <= s.len(),
    ensures
        0 <= sum_shares(s.take(n)) <= sum_shares(s),
    decreases s.len() - n,
{
    if n < s.len() {
        lemma_sum_shares_nonneg_prefix(s, n + 1);
        lemma_sum_shares_nonneg(s.take(n));
        assert(s.take(n + 1).drop_last() =~= s.take(n));
    } else {
        assert(s.take(n) =~= s);
        lemma_sum_shares_nonneg(s);
    }
}

proof fn lemma_sum_shares_nonneg(s: Seq<(AuthorId, u32)>)
    ensures
        sum_shares(s) >= 0,
    decreases s.len(),
{
    if s.len() > 0 {
        lemma_sum_shares_nonneg(s.drop_last());
    }
}

/// Kept lines of one accumulated author entry.
spec fn entry_kept(e: (u32, u32, u32), dels_total: u32) -> int {
    let others = dels_total - e.2;
    if e.1 > others {
        e.1 - others
    } else {
        0
    }
}

/// The positive kept lines of each entry, in entry order; `src` maps each
/// share to its entry.
fn kept_shares(entries: &Vec<(u32, u32, u32)>, dels_total: u32) -> (r: (Vec<(AuthorId, u32)>, Ghost<Seq<int>>))
    requires
        forall|p: int, q: int| 0 <= p < q < entries@.len() ==> (#[trigger] entries@[p]).0 != (#[trigger] entries@[q]).0,
        forall|p: int| 0 <= p < entries@.len() ==> (#[trigger] entries@[p]).2 <= dels_total,
        entries_adds(entries@) <= u32::MAX,
    ensures
        r.1@.len() == r.0@.len(),
        forall|q: int|
            0 <= q < r.0@.len() ==> 0 <= r.1@[q] < entries@.len() && (#[trigger] r.0@[q]).0.0 == entries@[r.1@[q]].0
                && r.0@[q].1 == entry_kept(entries@[r.1@[q]], dels_total) && entry_kept(entries@[r.1@[q]], dels_total) > 0,
        forall|e: int|
            0 <= e < entries@.len() && entry_kept(#[trigger] entries@[e], dels_total) > 0 ==> exists|q: int|
                0 <= q < r.1@.len() && r.1@[q] == e,
        forall|q1: int, q2: int| 0 <= q1 < r.0@.len() && 0 <= q2 < r.0@.len() && q1 != q2 ==> (#[trigger] r.0@[q1]).0 != (#[trigger] r.0@[q2]).0,
        sum_shares(r.0@) <= entries_adds(entries@),
{
    let mut shares: Vec<(AuthorId, u32)> = Vec::new();
    let ghost mut src: Seq<int> = Seq::empty();
    let mut k: usize = 0;
    while k < entries.len()
        invariant
            forall|p: int, q: int| 0 <= p < q < entries@.len() ==> (#[trigger] entries@[p]).0 != (#[trigger] entries@[q]).0,
            forall|p: int| 0 <= p < entries@.len() ==> (#[trigger] entries@[p]).2 <= dels_total,
            entries_adds(entries@) <= u32::MAX,
            k <= entries@.len(),
            src.len() == shares@.len(),
            forall|q: int| 0 <= q < src.len() ==> 0 <= #[trigger] src[q] < k,
            forall|q: int|
                0 <= q < shares@.len() ==> (#[trigger] shares@[q]).0.0 == entries@[src[q]].0 && shares@[q].1
                    == entry_kept(entries@[src[q]], dels_total) && entry_kept(entries@[src[q]], dels_total) > 0,
            forall|q1: int, q2: int| 0 <= q1 < q2 < src.len() ==> #[trigger] src[q1] < #[trigger] src[q2],
            forall|e: int|
                0 <= e < k && entry_kept(#[trigger] entries@[e], dels_total) > 0 ==> exists|q: int|
                    0 <= q < src.len() && src[q] == e,
            sum_shares(shares@) <= entries_adds(entries@.take(k as int)),
        decreases entries@.len() - k,
    {
        let (a, adds, dels) = entries[k];
        let kept = adds.saturating_sub(dels_total - dels);
        proof {
            lemma_entries_adds_bound(entries@, k as int);
            assert(entries@.take(k + 1).drop_last() =~= entries@.take(k as int));
            assert(kept == entry_kept(entries@[k as int], dels_total));
        }
        if kept > 0 {
            let ghost before = shares@;
            let ghost old_src = src;
            shares.push((AuthorId(a), kept));
            proof {
                src = src.push(k as int);
                assert(shares@.drop_last() =~= before);
                assert forall|q: int| 0 <= q < src.len() implies 0 <= #[trigger] src[q] < k + 1 by {
                    if q < old_src.len() {
                        assert(src[q] == old_src[q]);
                    }
                }
                assert forall|q: int|
                    0 <= q < shares@.len() implies (#[trigger] shares@[q]).0.0 == entries@[src[q]].0 && shares@[q].1
                        == entry_kept(entries@[src[q]], dels_total) && entry_kept(entries@[src[q]], dels_total) > 0 by {
                    if q < before.len() {
                        assert(shares@[q] == before[q]);
                        assert(src[q] == old_src[q]);
                    }
                }
                assert forall|q1: int, q2: int| 0 <= q1 < q2 < src.len() implies #[trigger] src[q1] < #[trigger] src[q2] by {
                    assert(src[q1] == old_src[q1]);
                    if q2 < old_src.len() {
                        assert(src[q2] == old_src[q2]);
                    }
                }
                assert forall|e: int|
                    0 <= e < k + 1 && entry_kept(#[trigger] entries@[e], dels_total) > 0 implies exists|q: int|
                        0 <= q < src.len() && src[q] == e by {
                    if e == k {
                        assert(src[old_src.len() as int] == e);
                    } else {
                        let q = choose|q: int| 0 <= q < old_src.len() && old_src[q] == e;
                        assert(src[q] == e);
                    }
                }
            }
        }
        k = k + 1;
    }
    proof {
        assert(entries@.take(k as int) =~= entries@);
        assert forall|q1: int, q2: int|
            0 <= q1 < shares@.len() && 0 <= q2 < shares@.len() && q1 != q2 implies (#[trigger] shares@[q1]).0 != (
            #[trigger] shares@[q2]).0 by {
            if q1 < q2 {
                assert(src[q1] < src[q2]);
            } else {
                assert(src[q2] < src[q1]);
            }
        }
    }
    (shares, Ghost(src))
}

/// The shares of one file from its completed accumulator.
#[verifier::rlimit(40)]
fn acc_shares(acc: &FileAcc, Ghost(cs): Ghost<Seq<CommitRecord>>, Ghost(w): Ghost<Window>) -> (row: OwnershipShares)
    requires
        acc_at(*acc, cs, w, cs.len() as int, 0),
        entries_adds(acc.entries@) <= u32::MAX,
    ensures
        row.file.0 == acc.file,
        shares_of_file(row, cs, w),
{
    let f = acc.file;
    let ghost n = cs.len() as int;
    proof {
        lemma_sum_upto_end(cs, w, dels_weight(f));
        assert forall|a: u32|
            #![trigger author_touch_weight(f, a)]
            sum_upto(cs, w, author_touch_weight(f, a), n, 0) == author_touches(cs, w, f, a)
                && sum_upto(cs, w, author_adds_weight(f, a), n, 0) == sum_commits(cs, w, author_adds_weight(f, a))
                && sum_upto(cs, w, author_dels_weight(f, a), n, 0) == sum_commits(cs, w, author_dels_weight(f, a)) by {
            lemma_sum_upto_end(cs, w, author_touch_weight(f, a));
            lemma_sum_upto_end(cs, w, author_adds_weight(f, a));
            lemma_sum_upto_end(cs, w, author_dels_weight(f, a));
        }
    }
    let (shares, Ghost(src)) = kept_shares(&acc.entries, acc.dels_total);
    proof {
        assert forall|a1: int, b1: int|
            0 <= a1 < shares@.len() && 0 <= b1 < shares@.len() && a1 != b1 implies #[trigger] shares@[a1].before(shares@[b1])
            || #[trigger] shares@[b1].before(shares@[a1]) by {
            assert(shares@[a1].0 != shares@[b1].0);
        }
    }
    let ghost unsorted = shares@;
    let sorted = sort_strict(shares);
    proof {
        assert(unsorted.no_duplicates()) by {
            assert forall|p: int, q: int| 0 <= p < unsorted.len() && 0 <= q < unsorted.len() && p != q implies unsorted[p]
                != unsorted[q] by {
                if p < q {
                    assert(unsorted[p].0 != unsorted[q].0);
                } else {
                    assert(unsorted[q].0 != unsorted[p].0);
                }
            }
        }
        assert(sorted@.no_duplicates()) by {
            assert forall|p: int, q: int| 0 <= p < sorted@.len() && 0 <= q < sorted@.len() && p != q implies sorted@[p]
                != sorted@[q] by {
                if p < q {
                    assert(sorted@[p].before(sorted@[q]));
                } else {
                    assert(sorted@[q].before(sorted@[p]));
                }
            }
        }
        lemma_sum_shares_same(sorted@, unsorted);
    }
    let mut total: u32 = 0;
    let mut q: usize = 0;
    while q < sorted.len()
        invariant
            q <= sorted@.len(),
            total == sum_shares(sorted@.take(q as int)),
            sum_shares(sorted@) <= u32::MAX,
        decreases sorted@.len() - q,
    {
        proof {
            assert(sorted@.take(q + 1).drop_last() =~= sorted@.take(q as int));
            lemma_sum_shares_nonneg_prefix(sorted@, q + 1);
        }
        total = total + sorted[q].1;
        q = q + 1;
    }
    assert(sorted@.take(q as int) =~= sorted@);
    let row = OwnershipShares { file: FileId(f), shares: sorted, kept_total: total };
    proof {
        assert forall|p: int| 0 <= p < row.shares@.len() implies {
            let a = (#[trigger] row.shares@[p]).0.0;
            &&& row.shares@[p].1 == kept_lines(cs, w, f, a)
            &&& kept_lines(cs, w, f, a) > 0
            &&& author_touches(cs, w, f, a) > 0
        } by {
            assert(sorted@.contains(sorted@[p]));
            let u = choose|u: int| 0 <= u < unsorted.len() && unsorted[u] == sorted@[p];
            let e = src[u];
            assert(unsorted[u].0.0 == acc.entries@[e].0);
            let a = acc.entries@[e].0;
            assert(sum_upto(cs, w, author_touch_weight(f, a), n, 0) > 0);
        }
        assert forall|a: u32|
            #![trigger kept_lines(cs, w, f, a)]
            author_touches(cs, w, f, a) > 0 && kept_lines(cs, w, f, a) > 0 implies exists|p: int|
                0 <= p < row.shares@.len() && (#[trigger] row.shares@[p]).0.0 == a by {
            assert(sum_upto(cs, w, author_touch_weight(f, a), n, 0) > 0);
            let e = choose|e: int| 0 <= e < acc.entries@.len() && (#[trigger] acc.entries@[e]).0 == a;
            assert(entry_kept(acc.entries@[e], acc.dels_total) == kept_lines(cs, w, f, a));
            let u = choose|u: int| 0 <= u < src.len() && src[u] == e;
            assert(unsorted[u].0.0 == acc.entries@[e].0);
            assert(unsorted.contains(unsorted[u]));
            assert(sorted@.contains(unsorted[u]));
            let p = choose|p: int| 0 <= p < sorted@.len() && sorted@[p] == unsorted[u];
            assert(row.shares@[p].0.0 == a);
        }
    }
    row
}

/// Kept lines of every author of every file touched inside the window,
/// one row per file, by file id.
pub fn ownership_shares(history: &History, window: Window) -> (rows: Vec<OwnershipShares>)
    requires
        churn_fits(history.commits@, window),
    ensures
        forall|k: int|
            0 <= k < rows@.len() ==> file_touches(history.commits@, window, (#[trigger] rows@[k]).file.0) > 0
                && shares_of_file(rows@[k], history.commits@, window),
        forall|f: u32|
            file_touches(history.commits@, window, f) > 0 ==> exists|k: int|
                0 <= k < rows@.len() && (#[trigger] rows@[k]).file.0 == f,
        sorted_strict(rows@),
{
    let ghost cs = history.commits@;
    let accs = accumulate(history, window);
    let mut rows: Vec<OwnershipShares> = Vec::new();
    let mut k: usize = 0;
    while k < accs.len()
        invariant
            cs == history.commits@,
            churn_fits(cs, window),
            k <= accs@.len(),
            rows@.len() == k,
            forall|q: int|
                0 <= q < accs@.len() ==> acc_at(#[trigger] accs@[q], cs, window, cs.len() as int, 0)
                    && file_touches(cs, window, accs@[q].file) > 0,
            forall|q: int|
                0 <= q < k ==> (#[trigger] rows@[q]).file.0 == accs@[q].file && shares_of_file(rows@[q], cs, window),
        decreases accs@.len() - k,
    {
        proof {
            let f = accs@[k as int].file;
            lemma_sum_upto_end(cs, window, adds_weight(f));
            assert(sum_commits(cs, window, adds_weight(f)) + sum_commits(cs, window, dels_weight(f)) <= u32::MAX);
            assert forall|c: CommitRecord, s: FileStat| #[trigger] dels_weight(f)(c, s) >= 0 by {}
            lemma_sum_commits_nonneg(cs, window, dels_weight(f));
        }
        let row = acc_shares(&accs[k], Ghost(cs), Ghost(window));
        rows.push(row);
        k = k + 1;
    }
    proof {
        assert forall|a1: int, b1: int|
            0 <= a1 < rows@.len() && 0 <= b1 < rows@.len() && a1 != b1 implies #[trigger] rows@[a1].before(rows@[b1])
            || #[trigger] rows@[b1].before(rows@[a1]) by {
            if a1 < b1 {
                assert(accs@[a1].file != accs@[b1].file);
            } else {
                assert(accs@[b1].file != accs@[a1].file);
            }
        }
    }
    let ghost unsorted = rows@;
    let sorted = sort_strict(rows);
    proof {
        assert forall|p: int|
            0 <= p < sorted@.len() implies file_touches(cs, window, (#[trigger] sorted@[p]).file.0) > 0 && shares_of_file(
                sorted@[p],
                cs,
                window,
            ) by {
            assert(sorted@.contains(sorted@[p]));
            let u = choose|u: int| 0 <= u < unsorted.len() && unsorted[u] == sorted@[p];
        }
        assert forall|f: u32| file_touches(cs, window, f) > 0 implies exists|p: int|
            0 <= p < sorted@.len() && (#[trigger] sorted@[p]).file.0 == f by {
            let q = choose|q: int| 0 <= q < accs@.len() && (#[trigger] accs@[q]).file == f;
            assert(unsorted.contains(unsorted[q]));
            let p = choose|p: int| 0 <= p < sorted@.len() && sorted@[p] == unsorted[q];
        }
    }
    sorted
}



/// A file nobody keeps lines of is dead: its kept total is zero exactly
/// when it has no shares (its bus factor is then 0).
pub proof fn lemma_dead_file(row: OwnershipShares, cs: Seq<CommitRecord>, w: Window)
    requires
        shares_of_file(row, cs, w),
    ensures
        row.kept_total == 0 <==> row.shares@.len() == 0,
{
    let s = row.shares@;
    if s.len() > 0 {
        lemma_sum_shares_nonneg(s.drop_last());
        assert(s.last() == s[s.len() - 1]);
        assert(s[s.len() - 1].1 > 0);
    }
}


/// The shares of a file go by kept lines, most first, and equal kept lines
/// by author id, smallest first; so the first share (the owner's) keeps at
/// least as many lines as any other.
pub proof fn lemma_shares_most_lines_first(row: OwnershipShares, cs: Seq<CommitRecord>, w: Window)
    requires
        shares_of_file(row, cs, w),
    ensures
        forall|i: int, j: int|
            #![trigger row.shares@[i], row.shares@[j]]
            0 <= i < j < row.shares@.len() ==> row.shares@[i].1 > row.shares@[j].1 || (row.shares@[i].1
                == row.shares@[j].1 && row.shares@[i].0.0 < row.shares@[j].0.0),
        forall|q: int| 0 <= q < row.shares@.len() ==> row.shares@[0].1 >= (#[trigger] row.shares@[q]).1,
{
    assert forall|i: int, j: int|
        #![trigger row.shares@[i], row.shares@[j]]
        0 <= i < j < row.shares@.len() implies row.shares@[i].1 > row.shares@[j].1 || (row.shares@[i].1
            == row.shares@[j].1 && row.shares@[i].0.0 < row.shares@[j].0.0) by {
        assert(row.shares@[i].before(row.shares@[j]));
    }
    assert forall|q: int| 0 <= q < row.shares@.len() implies row.shares@[0].1 >= (#[trigger] row.shares@[q]).1 by {
        if q > 0 {
            assert(row.shares@[0].before(row.shares@[q]));
        }
    }
}


/// An author's own deletions do not take away their kept lines: a lone
/// commit in the window whose only stat is on `f` keeps all its added lines
/// for its author, and none for anyone else.
pub proof fn lemma_own_deletions_keep_lines(c: CommitRecord, w: Window, f: u32, b: u32)
    requires
        w.spec_includes(c.time),
        c.files@.len() == 1,
        c.files@[0].file.0 == f,
    ensures
        kept_lines(seq![c], w, f, c.author.0) == c.files@[0].adds,
        b != c.author.0 ==> kept_lines(seq![c], w, f, b) == 0,
{
    lemma_one_commit_one_stat(c, w, author_adds_weight(f, c.author.0));
    lemma_one_commit_one_stat(c, w, author_dels_weight(f, c.author.0));
    lemma_one_commit_one_stat(c, w, dels_weight(f));
    lemma_one_commit_one_stat(c, w, author_adds_weight(f, b));
    lemma_one_commit_one_stat(c, w, author_dels_weight(f, b));
}

} // verus!
