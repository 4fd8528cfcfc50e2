//! Co-modification: how often two files change in the same commit.
//!
//! Pairs are keyed with the smaller file id first. Commits that touch more
//! than `MAX_FILES_TOUCHED` distinct files are noise (vendoring, lockfiles)
//! and count for nothing; ignored paths leave before pairs are formed. The
//! Jaccard index of a pair is a fraction derived from these integers by the
//! caller.

use vstd::prelude::*;
use vstd::hash_map::HashMapWithView;
use vstd::hash_set::HashSetWithView;
use crate::engine::metrics::Window;
use crate::engine::model::{CommitRecord, FileId, FileStat, History};
use crate::order::{same_elements, sort_strict, sorted_strict, StrictOrder};
use crate::text::{ends_with_str, str_ends_with, str_eq};

verus! {

broadcast use vstd::std_specs::hash::group_hash_axioms;

/// Commits touching more distinct files than this are left out.
pub const MAX_FILES_TOUCHED: usize = 200;

/// Pairs seen together fewer times than this are no edge.
pub const MIN_COOCCURRENCES: u32 = 3;

/// File `f` has a known path that is not ignored.
pub open spec fn allowed(f: u32, ignored: Seq<bool>) -> bool {
    f < ignored.len() && !ignored[f as int]
}

/// The distinct allowed file ids of `files`, first occurrence first.
pub open spec fn commit_ids(files: Seq<FileStat>, ignored: Seq<bool>) -> Seq<u32>
    decreases files.len(),
{
    if files.len() == 0 {
        Seq::empty()
    } else {
        let rest = commit_ids(files.drop_last(), ignored);
        let f = files.last().file.0;
        if allowed(f, ignored) && !rest.contains(f) {
            rest.push(f)
        } else {
            rest
        }
    }
}

/// A commit inside the window that touches at most `MAX_FILES_TOUCHED`
/// distinct allowed files.
pub open spec fn counted(c: CommitRecord, w: Window, ignored: Seq<bool>) -> bool {
    w.spec_includes(c.time) && commit_ids(c.files@, ignored).len() <= MAX_FILES_TOUCHED
}

/// Counted commits of `cs` that touch `f`.
pub open spec fn coupling_touches(cs: Seq<CommitRecord>, w: Window, ignored: Seq<bool>, f: u32) -> int
    decreases cs.len(),
{
    if cs.len() == 0 {
        0
    } else {
        coupling_touches(cs.drop_last(), w, ignored, f) + if counted(cs.last(), w, ignored) && commit_ids(
            cs.last().files@,
            ignored,
        ).contains(f) {
            1int
        } else {
            0
        }
    }
}

/// Counted commits of `cs` that touch both `a` and `b`, for `a < b` (zero otherwise).
pub open spec fn cooccurrences(cs: Seq<CommitRecord>, w: Window, ignored: Seq<bool>, a: u32, b: u32) -> int
    decreases cs.len(),
{
    if cs.len() == 0 {
        0
    } else {
        let ids = commit_ids(cs.last().files@, ignored);
        cooccurrences(cs.drop_last(), w, ignored, a, b) + if a < b && counted(cs.last(), w, ignored)
            && ids.contains(a) && ids.contains(b) {
            1int
        } else {
            0
        }
    }
}

proof fn lemma_commit_ids(files: Seq<FileStat>, ignored: Seq<bool>)
    ensures
        commit_ids(files, ignored).no_duplicates(),
        forall|f: u32| #[trigger] commit_ids(files, ignored).contains(f) <==> allowed(f, ignored) && exists|j: int|
            0 <= j < files.len() && (#[trigger] files[j]).file.0 == f,
    decreases files.len(),
{
    if files.len() > 0 {
        let rest = commit_ids(files.drop_last(), ignored);
        lemma_commit_ids(files.drop_last(), ignored);
        let g = files.last().file.0;
        assert forall|f: u32| #[trigger] commit_ids(files, ignored).contains(f) <==> allowed(f, ignored) && exists|j: int|
            0 <= j < files.len() && (#[trigger] files[j]).file.0 == f by {
            if commit_ids(files, ignored).contains(f) {
                if rest.contains(f) {
                    let j = choose|j: int| 0 <= j < files.drop_last().len() && (#[trigger] files.drop_last()[j]).file.0 == f;
                    assert(files[j].file.0 == f);
                } else {
                    assert(f == g);
                    assert(files[files.len() - 1].file.0 == f);
                }
            }
            if allowed(f, ignored) && exists|j: int| 0 <= j < files.len() && (#[trigger] files[j]).file.0 == f {
                let j = choose|j: int| 0 <= j < files.len() && (#[trigger] files[j]).file.0 == f;
                if j < files.len() - 1 {
                    assert(files.drop_last()[j].file.0 == f);
                    assert(rest.contains(f));
                    if !rest.contains(g) && allowed(g, ignored) {
                        assert(rest.push(g)[rest.index_of(f)] == f);
                    }
                } else {
                    if rest.contains(f) {
                    } else {
                        assert(rest.push(g)[rest.len() as int] == f);
                    }
                }
            }
        }
    }
}

/// The distinct allowed file ids of `files`, ascending.
pub(crate) fn commit_id_list(files: &Vec<FileStat>, ignored: &Vec<bool>) -> (ids: Vec<u32>)
    ensures
        sorted_strict(ids@),
        same_elements(ids@, commit_ids(files@, ignored@)),
{
    let mut seen: HashSetWithView<u32> = HashSetWithView::new();
    let mut ids: Vec<u32> = Vec::new();
    let mut j: usize = 0;
    while j < files.len()
        invariant
            j <= files@.len(),
            ids@ == commit_ids(files@.take(j as int), ignored@),
            seen@ == ids@.to_set(),
        decreases files@.len() - j,
    {
        let f = files[j].file.0;
        proof {
            assert(files@.take(j + 1).drop_last() =~= files@.take(j as int));
            assert(files@.take(j + 1).last() == files@[j as int]);
        }
        let known = (f as usize) < ignored.len();
        if known && !ignored[f as usize] && !seen.contains(&f) {
            let ghost before = ids@;
            seen.insert(f);
            ids.push(f);
            proof {
                assert(ids@.drop_last() =~= before);
                assert(ids@.to_set() =~= before.to_set().insert(f)) by {
                    assert forall|x: u32| ids@.to_set().contains(x) <==> ids@.drop_last().to_set().insert(f).contains(x) by {
                        if ids@.contains(x) && x != f {
                            let k = choose|k: int| 0 <= k < ids@.len() && ids@[k] == x;
                            assert(ids@.drop_last()[k] == x);
                        }
                        if ids@.drop_last().contains(x) {
                            let k = choose|k: int| 0 <= k < ids@.drop_last().len() && ids@.drop_last()[k] == x;
                            assert(ids@[k] == x);
                        }
                        if x == f {
                            assert(ids@[ids@.len() - 1] == f);
                        }
                    }
                }
            }
        }
        j = j + 1;
    }
    proof {
        assert(files@.take(j as int) =~= files@);
        lemma_commit_ids(files@, ignored@);
        assert forall|a: int, b: int|
            0 <= a < ids@.len() && 0 <= b < ids@.len() && a != b implies #[trigger] ids@[a].before(ids@[b])
            || #[trigger] ids@[b].before(ids@[a]) by {
        }
    }
    let ghost unsorted = ids@;
    let sorted = sort_strict(ids);
    proof {
        assert(same_elements(sorted@, commit_ids(files@, ignored@)));
    }
    sorted
}


// ------------------------------------------------------------------
// Pair counts
// ------------------------------------------------------------------

const PAIR_SHIFT: u64 = 0x1_0000_0000;

/// One `u64` per ordered pair of `u32`: `a * 2^32 + b`.
spec fn pair_key(a: u32, b: u32) -> u64 {
    (a * 0x1_0000_0000 + b) as u64
}

proof fn lemma_pair_key(a: u32, b: u32, c: u32, d: u32)
    ensures
        pair_key(a, b) == a * 0x1_0000_0000 + b,
        pair_key(a, b) == pair_key(c, d) ==> a == c && b == d,
{
    assert(0 <= a * 0x1_0000_0000 + b <= u64::MAX) by (nonlinear_arith)
        requires
            a <= u32::MAX,
            b <= u32::MAX,
    ;
    assert(0 <= c * 0x1_0000_0000 + d <= u64::MAX) by (nonlinear_arith)
        requires
            c <= u32::MAX,
            d <= u32::MAX,
    ;
    if a * 0x1_0000_0000 + b == c * 0x1_0000_0000 + d {
        assert(a == c && b == d) by (nonlinear_arith)
            requires
                a * 0x1_0000_0000 + b == c * 0x1_0000_0000 + d,
                0 <= b < 0x1_0000_0000,
                0 <= d < 0x1_0000_0000,
                0 <= a,
                0 <= c,
        ;
    }
}

fn key_of(a: u32, b: u32) -> (k: u64)
    ensures
        k == pair_key(a, b),
{
    proof {
        lemma_pair_key(a, b, a, b);
        assert((a as u64) * PAIR_SHIFT + (b as u64) <= u64::MAX) by (nonlinear_arith)
            requires
                a <= u32::MAX,
                b <= u32::MAX,
                PAIR_SHIFT == 0x1_0000_0000,
        ;
    }
    (a as u64) * PAIR_SHIFT + (b as u64)
}

/// Times each pair was seen: `entries` in first-seen order, `index` from a
/// pair's key to its entry.
struct PairStore {
    index: HashMapWithView<u64, usize>,
    entries: Vec<(u32, u32, u32)>,
}

spec fn entry_key(e: (u32, u32, u32)) -> u64 {
    pair_key(e.0, e.1)
}

impl PairStore {
    spec fn wf(&self) -> bool {
        &&& forall|k: u64|
            #[trigger] self.index@.contains_key(k) ==> self.index@[k] < self.entries@.len() && entry_key(
                self.entries@[self.index@[k] as int],
            ) == k
        &&& forall|i: int|
            0 <= i < self.entries@.len() ==> (#[trigger] self.entries@[i]).0 < self.entries@[i].1
                && self.index@.contains_key(entry_key(self.entries@[i])) && self.index@[entry_key(
                self.entries@[i],
            )] == i
    }

    spec fn count(&self, a: u32, b: u32) -> int {
        let k = pair_key(a, b);
        if self.index@.contains_key(k) {
            self.entries@[self.index@[k] as int].2 as int
        } else {
            0
        }
    }

    fn new() -> (r: Self)
        ensures
            r.wf(),
            forall|a: u32, b: u32| #[trigger] r.count(a, b) == 0,
    {
        PairStore { index: HashMapWithView::new(), entries: Vec::new() }
    }

    /// Counts one more sighting of the pair `(a, b)`.
    fn bump(&mut self, a: u32, b: u32)
        requires
            old(self).wf(),
            a < b,
            old(self).count(a, b) < u32::MAX,
        ensures
            final(self).wf(),
            forall|x: u32, y: u32|
                #[trigger] final(self).count(x, y) == old(self).count(x, y) + if x == a && y == b {
                    1int
                } else {
                    0
                },
    {
        let k = key_of(a, b);
        proof {
            assert forall|x: u32, y: u32| pair_key(x, y) == k <==> x == a && y == b by {
                lemma_pair_key(x, y, a, b);
            }
        }
        let ghost old_entries = self.entries@;
        let ghost old_index = self.index@;
        match self.index.get(&k) {
            Some(pos) => {
                let pos = *pos;
                let (ea, eb, n) = self.entries[pos];
                proof {
                    assert(entry_key(old_entries[pos as int]) == k);
                    assert(ea == a && eb == b);
                }
                self.entries.set(pos, (ea, eb, n + 1));
                proof {
                    assert forall|i: int| 0 <= i < self.entries@.len() implies (#[trigger] self.entries@[i]).0
                        < self.entries@[i].1 && self.index@.contains_key(entry_key(self.entries@[i]))
                        && self.index@[entry_key(self.entries@[i])] == i by {
                        if i != pos {
                            assert(self.entries@[i] == old_entries[i]);
                        }
                    }
                    assert forall|x: u32, y: u32|
                        #[trigger] self.count(x, y) == old(self).count(x, y) + if x == a && y == b {
                            1int
                        } else {
                            0
                        } by {
                        let kx = pair_key(x, y);
                        if old_index.contains_key(kx) && kx != k {
                            assert(old_index[kx] != pos);
                        }
                    }
                }
            },
            None => {
                let pos = self.entries.len();
                self.entries.push((a, b, 1));
                self.index.insert(k, pos);
                proof {
                    assert(entry_key(self.entries@[pos as int]) == k);
                    assert forall|kx: u64| #[trigger] self.index@.contains_key(kx) implies self.index@[kx]
                        < self.entries@.len() && entry_key(self.entries@[self.index@[kx] as int]) == kx by {
                        if kx != k {
                            assert(self.entries@[old_index[kx] as int] == old_entries[old_index[kx] as int]);
                        }
                    }
                    assert forall|i: int| 0 <= i < self.entries@.len() implies (#[trigger] self.entries@[i]).0
                        < self.entries@[i].1 && self.index@.contains_key(entry_key(self.entries@[i]))
                        && self.index@[entry_key(self.entries@[i])] == i by {
                        if i != pos {
                            assert(self.entries@[i] == old_entries[i]);
                            assert(entry_key(old_entries[i]) != k);
                        }
                    }
                    assert forall|x: u32, y: u32|
                        #[trigger] self.count(x, y) == old(self).count(x, y) + if x == a && y == b {
                            1int
                        } else {
                            0
                        } by {
                        let kx = pair_key(x, y);
                        if old_index.contains_key(kx) && kx != k {
                            assert(self.entries@[old_index[kx] as int] == old_entries[old_index[kx] as int]);
                        }
                    }
                }
            },
        }
    }
}


/// Counts the pairs `(ids[p], y)` for each `y` after position `p`.
fn count_row(store: &mut PairStore, ids: &Vec<u32>, p: usize)
    requires
        old(store).wf(),
        sorted_strict(ids@),
        p < ids@.len(),
        forall|y: u32| #[trigger] old(store).count(ids@[p as int], y) < u32::MAX,
    ensures
        final(store).wf(),
        forall|x: u32, y: u32|
            #[trigger] final(store).count(x, y) == old(store).count(x, y) + if x == ids@[p as int] && ids@.subrange(
                p + 1,
                ids@.len() as int,
            ).contains(y) {
                1int
            } else {
                0
            },
{
    let ghost base = *store;
    let a = ids[p];
    let n = ids.len();
    let mut q: usize = p + 1;
    while q < ids.len()
        invariant
            store.wf(),
            sorted_strict(ids@),
            p < q <= ids@.len(),
            a == ids@[p as int],
            forall|y: u32| #[trigger] base.count(a, y) < u32::MAX,
            forall|x: u32, y: u32|
                #[trigger] store.count(x, y) == base.count(x, y) + if x == a && ids@.subrange(p + 1, q as int).contains(y) {
                    1int
                } else {
                    0
                },
        decreases ids@.len() - q,
    {
        let b = ids[q];
        proof {
            assert(ids@[p as int].before(ids@[q as int]));
            if ids@.subrange(p + 1, q as int).contains(b) {
                let sub = ids@.subrange(p + 1, q as int);
                let m = choose|m: int| 0 <= m < sub.len() && sub[m] == b;
                assert(ids@[p + 1 + m].before(ids@[q as int]));
            }
            assert(store.count(a, b) == base.count(a, b));
        }
        let ghost mid = *store;
        store.bump(a, b);
        proof {
            assert(ids@.subrange(p + 1, q + 1) =~= ids@.subrange(p + 1, q as int).push(b));
            assert forall|x: u32, y: u32|
                #[trigger] store.count(x, y) == base.count(x, y) + if x == a && ids@.subrange(p + 1, q + 1).contains(y) {
                    1int
                } else {
                    0
                } by {
                assert(mid.count(x, y) == base.count(x, y) + if x == a && ids@.subrange(p + 1, q as int).contains(y) {
                    1int
                } else {
                    0
                });
                if y == b {
                    assert(ids@.subrange(p + 1, q + 1)[q - p - 1] == b);
                } else if ids@.subrange(p + 1, q + 1).contains(y) {
                    let sub = ids@.subrange(p + 1, q + 1);
                    let m = choose|m: int| 0 <= m < sub.len() && sub[m] == y;
                    assert(ids@.subrange(p + 1, q as int)[m] == y);
                }
            }
        }
        q = q + 1;
    }
}

/// Counts every pair `x < y` of `ids` once.
fn count_pairs(store: &mut PairStore, ids: &Vec<u32>)
    requires
        old(store).wf(),
        sorted_strict(ids@),
        forall|x: u32, y: u32| #[trigger] old(store).count(x, y) < u32::MAX,
    ensures
        final(store).wf(),
        forall|x: u32, y: u32|
            #[trigger] final(store).count(x, y) == old(store).count(x, y) + if x < y && ids@.contains(x) && ids@.contains(y) {
                1int
            } else {
                0
            },
{
    let ghost base = *store;
    let mut p: usize = 0;
    while p < ids.len()
        invariant
            store.wf(),
            sorted_strict(ids@),
            p <= ids@.len(),
            forall|x: u32, y: u32| #[trigger] base.count(x, y) < u32::MAX,
            forall|x: u32, y: u32|
                #[trigger] store.count(x, y) == base.count(x, y) + if x < y && ids@.take(p as int).contains(x)
                    && ids@.contains(y) {
                    1int
                } else {
                    0
                },
        decreases ids@.len() - p,
    {
        let ghost a = ids@[p as int];
        proof {
            if ids@.take(p as int).contains(a) {
                let m = choose|m: int| 0 <= m < p && ids@.take(p as int)[m] == a;
                assert(ids@[m].before(ids@[p as int]));
            }
            assert forall|y: u32| #[trigger] store.count(a, y) < u32::MAX by {
                assert(base.count(a, y) < u32::MAX);
            }
        }
        let ghost mid = *store;
        count_row(store, ids, p);
        proof {
            assert forall|x: u32, y: u32|
                #[trigger] store.count(x, y) == base.count(x, y) + if x < y && ids@.take(p + 1).contains(x)
                    && ids@.contains(y) {
                    1int
                } else {
                    0
                } by {
                assert(mid.count(x, y) == base.count(x, y) + if x < y && ids@.take(p as int).contains(x)
                    && ids@.contains(y) {
                    1int
                } else {
                    0
                });
                let rest = ids@.subrange(p + 1, ids@.len() as int);
                if x == a {
                    if rest.contains(y) {
                        let m = choose|m: int| 0 <= m < rest.len() && rest[m] == y;
                        assert(ids@[p as int].before(ids@[p + 1 + m]));
                        assert(ids@[p + 1 + m] == y);
                    }
                    if x < y && ids@.contains(y) {
                        let m = choose|m: int| 0 <= m < ids@.len() && ids@[m] == y;
                        if m <= p {
                            if m < p {
                                assert(ids@[m].before(ids@[p as int]));
                            }
                        } else {
                            assert(rest[m - p - 1] == y);
                        }
                    }
                    assert(ids@.take(p + 1)[p as int] == x);
                } else {
                    if ids@.take(p + 1).contains(x) {
                        let pre = ids@.take(p + 1);
                        let m = choose|m: int| 0 <= m < pre.len() && pre[m] == x;
                        assert(ids@.take(p as int)[m] == x);
                    }
                    if ids@.take(p as int).contains(x) {
                        let m = choose|m: int| 0 <= m < p && ids@.take(p as int)[m] == x;
                        assert(ids@.take(p + 1)[m] == x);
                    }
                }
            }
        }
        p = p + 1;
    }
    proof {
        assert(ids@.take(p as int) =~= ids@);
    }
}

/// Touches counted per file id (absent: zero).
spec fn touch_count(m: Map<u32, u32>, f: u32) -> int {
    if m.contains_key(f) {
        m[f] as int
    } else {
        0
    }
}

/// Counts one touch of every id in `ids`.
fn count_touches(touches: &mut HashMapWithView<u32, u32>, ids: &Vec<u32>)
    requires
        sorted_strict(ids@),
        forall|f: u32| #[trigger] touch_count(old(touches)@, f) < u32::MAX,
    ensures
        forall|f: u32|
            #[trigger] touch_count(final(touches)@, f) == touch_count(old(touches)@, f) + if ids@.contains(f) {
                1int
            } else {
                0
            },
{
    let ghost base = touches@;
    let mut k: usize = 0;
    while k < ids.len()
        invariant
            sorted_strict(ids@),
            k <= ids@.len(),
            forall|f: u32| #[trigger] touch_count(base, f) < u32::MAX,
            forall|f: u32|
                #[trigger] touch_count(touches@, f) == touch_count(base, f) + if ids@.take(k as int).contains(f) {
                    1int
                } else {
                    0
                },
        decreases ids@.len() - k,
    {
        let f = ids[k];
        proof {
            if ids@.take(k as int).contains(f) {
                let m = choose|m: int| 0 <= m < k && ids@.take(k as int)[m] == f;
                assert(ids@[m].before(ids@[k as int]));
            }
            assert(touch_count(touches@, f) == touch_count(base, f));
            assert(touch_count(base, f) < u32::MAX);
        }
        let n: u32 = match touches.get(&f) {
            Some(t) => *t,
            None => 0,
        };
        let ghost before = touches@;
        touches.insert(f, n + 1);
        proof {
            assert forall|g: u32|
                #[trigger] touch_count(touches@, g) == touch_count(base, g) + if ids@.take(k + 1).contains(g) {
                    1int
                } else {
                    0
                } by {
                assert(touch_count(before, g) == touch_count(base, g) + if ids@.take(k as int).contains(g) {
                    1int
                } else {
                    0
                });
                if g == f {
                    assert(ids@.take(k + 1)[k as int] == f);
                } else {
                    if ids@.take(k + 1).contains(g) {
                        let pre = ids@.take(k + 1);
                        let m = choose|m: int| 0 <= m < pre.len() && pre[m] == g;
                        assert(ids@.take(k as int)[m] == g);
                    }
                    if ids@.take(k as int).contains(g) {
                        let m = choose|m: int| 0 <= m < k && ids@.take(k as int)[m] == g;
                        assert(ids@.take(k + 1)[m] == g);
                    }
                }
            }
        }
        k = k + 1;
    }
    proof {
        assert(ids@.take(k as int) =~= ids@);
    }
}


// ------------------------------------------------------------------
// Edges
// ------------------------------------------------------------------

/// A pair of files changed together in at least `MIN_COOCCURRENCES`
/// counted commits, with the touches of each.
#[derive(Debug, Clone, Copy, PartialEq, Eq, Structural)]
pub struct CouplingCount {
    pub a: FileId,
    pub b: FileId,
    /// Counted commits that touch both.
    pub cooc: u32,
    /// Counted commits that touch `a`.
    pub touches_a: u32,
    /// Counted commits that touch `b`.
    pub touches_b: u32,
}

/// Pairs go by `a`, then by `b`.
impl StrictOrder for CouplingCount {
    open spec fn before(self, other: Self) -> bool {
        self.a.0 < other.a.0 || (self.a.0 == other.a.0 && self.b.0 < other.b.0)
    }

    fn is_before(&self, other: &Self) -> (r: bool) {
        self.a.0 < other.a.0 || (self.a.0 == other.a.0 && self.b.0 < other.b.0)
    }

    proof fn lemma_strict(a: Self, b: Self, c: Self) {
    }
}

/// `e` is the edge of its pair over `cs`.
pub open spec fn edge_of(e: CouplingCount, cs: Seq<CommitRecord>, w: Window, ignored: Seq<bool>) -> bool {
    &&& e.a.0 < e.b.0
    &&& e.cooc == cooccurrences(cs, w, ignored, e.a.0, e.b.0)
    &&& e.cooc >= MIN_COOCCURRENCES
    &&& e.touches_a == coupling_touches(cs, w, ignored, e.a.0)
    &&& e.touches_b == coupling_touches(cs, w, ignored, e.b.0)
}

proof fn lemma_coupling_step(cs: Seq<CommitRecord>, w: Window, ignored: Seq<bool>, i: int)
    requires
        0 <= i < cs.len(),
    ensures
        forall|x: u32, y: u32|
            #[trigger] cooccurrences(cs.take(i + 1), w, ignored, x, y) == cooccurrences(cs.take(i), w, ignored, x, y)
                + if x < y && counted(cs[i], w, ignored) && commit_ids(cs[i].files@, ignored).contains(x)
                && commit_ids(cs[i].files@, ignored).contains(y) {
                1int
            } else {
                0
            },
        forall|f: u32|
            #[trigger] coupling_touches(cs.take(i + 1), w, ignored, f) == coupling_touches(cs.take(i), w, ignored, f)
                + if counted(cs[i], w, ignored) && commit_ids(cs[i].files@, ignored).contains(f) {
                1int
            } else {
                0
            },
{
    assert(cs.take(i + 1).drop_last() =~= cs.take(i));
    assert(cs.take(i + 1).last() == cs[i]);
}

proof fn lemma_coupling_bounds(cs: Seq<CommitRecord>, w: Window, ignored: Seq<bool>)
    ensures
        forall|x: u32, y: u32|
            0 <= #[trigger] cooccurrences(cs, w, ignored, x, y) <= cs.len() && cooccurrences(cs, w, ignored, x, y)
                <= coupling_touches(cs, w, ignored, x) && cooccurrences(cs, w, ignored, x, y) <= coupling_touches(
                cs,
                w,
                ignored,
                y,
            ),
        forall|f: u32| 0 <= #[trigger] coupling_touches(cs, w, ignored, f) <= cs.len(),
    decreases cs.len(),
{
    if cs.len() > 0 {
        lemma_coupling_bounds(cs.drop_last(), w, ignored);
        assert forall|x: u32, y: u32|
            0 <= #[trigger] cooccurrences(cs, w, ignored, x, y) <= cs.len() && cooccurrences(cs, w, ignored, x, y)
                <= coupling_touches(cs, w, ignored, x) && cooccurrences(cs, w, ignored, x, y) <= coupling_touches(
                cs,
                w,
                ignored,
                y,
            ) by {
            assert(cooccurrences(cs.drop_last(), w, ignored, x, y) <= coupling_touches(cs.drop_last(), w, ignored, x));
            assert(cooccurrences(cs.drop_last(), w, ignored, x, y) <= coupling_touches(cs.drop_last(), w, ignored, y));
        }
        assert forall|f: u32| 0 <= #[trigger] coupling_touches(cs, w, ignored, f) <= cs.len() by {
            assert(coupling_touches(cs.drop_last(), w, ignored, f) <= cs.drop_last().len());
        }
    }
}

/// The co-modification edges of the commits inside `window`: every pair of
/// files changed together in at least `MIN_COOCCURRENCES` counted commits,
/// once, ordered by pair. `ignored[f]` tells whether the path of file `f`
/// is left out; files without a path are left out too.
#[verifier::rlimit(40)]
pub fn coupling_counts(history: &History, window: Window, ignored: &Vec<bool>) -> (edges: Vec<CouplingCount>)
    requires
        history.commits@.len() <= u32::MAX,
    ensures
        forall|k: int| 0 <= k < edges@.len() ==> edge_of(#[trigger] edges@[k], history.commits@, window, ignored@),
        forall|a: u32, b: u32|
            #[trigger] cooccurrences(history.commits@, window, ignored@, a, b) >= MIN_COOCCURRENCES ==> exists|k: int|
                0 <= k < edges@.len() && (#[trigger] edges@[k]).a.0 == a && edges@[k].b.0 == b,
        sorted_strict(edges@),
{
    let ghost cs = history.commits@;
    let ghost ig = ignored@;
    let mut store = PairStore::new();
    let mut touches: HashMapWithView<u32, u32> = HashMapWithView::new();
    let mut i: usize = 0;
    while i < history.commits.len()
        invariant
            cs == history.commits@,
            ig == ignored@,
            cs.len() <= u32::MAX,
            i <= cs.len(),
            store.wf(),
            forall|x: u32, y: u32| #[trigger] store.count(x, y) == cooccurrences(cs.take(i as int), window, ig, x, y),
            forall|f: u32| #[trigger] touch_count(touches@, f) == coupling_touches(cs.take(i as int), window, ig, f),
        decreases cs.len() - i,
    {
        let record = &history.commits[i];
        proof {
            lemma_coupling_step(cs, window, ig, i as int);
            lemma_coupling_bounds(cs.take(i as int), window, ig);
            assert(*record == cs[i as int]);
        }
        let ghost before_store = store;
        let ghost before_touches = touches@;
        if window.includes(record.time) {
            let ids = commit_id_list(&record.files, ignored);
            if ids.len() <= MAX_FILES_TOUCHED {
                proof {
                    assert forall|f: u32| #[trigger] touch_count(touches@, f) < u32::MAX by {
                        assert(coupling_touches(cs.take(i as int), window, ig, f) <= i);
                    }
                    assert forall|x: u32, y: u32| #[trigger] store.count(x, y) < u32::MAX by {
                        assert(cooccurrences(cs.take(i as int), window, ig, x, y) <= i);
                    }
                }
                count_touches(&mut touches, &ids);
                count_pairs(&mut store, &ids);
            }
            proof {
                let cid = commit_ids(record.files@, ig);
                assert(counted(cs[i as int], window, ig) == (ids@.len() <= MAX_FILES_TOUCHED));
                assert forall|x: u32| ids@.contains(x) <==> #[trigger] cid.contains(x) by {
                }
            }
        }
        i = i + 1;
    }
    proof {
        assert(cs.take(i as int) =~= cs);
        lemma_coupling_bounds(cs, window, ig);
    }
    let mut out: Vec<CouplingCount> = Vec::new();
    let ghost mut src: Seq<int> = Seq::empty();
    let mut k: usize = 0;
    while k < store.entries.len()
        invariant
            cs == history.commits@,
            ig == ignored@,
            store.wf(),
            k <= store.entries@.len(),
            forall|x: u32, y: u32| #[trigger] store.count(x, y) == cooccurrences(cs, window, ig, x, y),
            forall|f: u32| #[trigger] touch_count(touches@, f) == coupling_touches(cs, window, ig, f),
            forall|x: u32, y: u32|
                #[trigger] cooccurrences(cs, window, ig, x, y) <= coupling_touches(cs, window, ig, x)
                    && cooccurrences(cs, window, ig, x, y) <= coupling_touches(cs, window, ig, y),
            src.len() == out@.len(),
            forall|q: int| 0 <= q < src.len() ==> 0 <= #[trigger] src[q] < k,
            forall|q: int|
                0 <= q < out@.len() ==> 0 <= src[q] < store.entries@.len() && (#[trigger] out@[q]).a.0
                    == store.entries@[src[q]].0 && out@[q].b.0 == store.entries@[src[q]].1 && edge_of(
                    out@[q],
                    cs,
                    window,
                    ig,
                ),
            forall|q1: int, q2: int| 0 <= q1 < q2 < src.len() ==> #[trigger] src[q1] < #[trigger] src[q2],
            forall|e: int|
                0 <= e < k && (#[trigger] store.entries@[e]).2 >= MIN_COOCCURRENCES ==> exists|q: int|
                    0 <= q < src.len() && #[trigger] src[q] == e,
        decreases store.entries@.len() - k,
    {
        let (a, b, n) = store.entries[k];
        proof {
            assert(store.index@[entry_key(store.entries@[k as int])] == k);
            assert(store.count(a, b) == n);
        }
        if n >= MIN_COOCCURRENCES {
            proof {
                assert(cooccurrences(cs, window, ig, a, b) <= coupling_touches(cs, window, ig, a));
                assert(touch_count(touches@, a) > 0);
                assert(touch_count(touches@, b) > 0);
            }
            let ta: u32 = match touches.get(&a) {
                Some(t) => *t,
                None => 1,
            };
            let tb: u32 = match touches.get(&b) {
                Some(t) => *t,
                None => 1,
            };
            let edge = CouplingCount { a: FileId(a), b: FileId(b), cooc: n, touches_a: ta, touches_b: tb };
            let ghost old_src = src;
            let ghost old_out = out@;
            out.push(edge);
            proof {
                src = src.push(k as int);
                assert(edge_of(edge, cs, window, ig));
                assert(out@[old_out.len() as int] == edge);
                assert forall|q: int| 0 <= q < src.len() implies 0 <= #[trigger] src[q] < k + 1 by {
                    if q < old_src.len() {
                        assert(src[q] == old_src[q]);
                    }
                }
                assert forall|q1: int, q2: int| 0 <= q1 < q2 < src.len() implies #[trigger] src[q1] < #[trigger] src[q2] by {
                    assert(src[q1] == old_src[q1]);
                    if q2 < old_src.len() {
                        assert(src[q2] == old_src[q2]);
                    }
                }
                assert forall|q: int|
                    0 <= q < out@.len() implies 0 <= src[q] < store.entries@.len() && (#[trigger] out@[q]).a.0
                        == store.entries@[src[q]].0 && out@[q].b.0 == store.entries@[src[q]].1 && edge_of(
                        out@[q],
                        cs,
                        window,
                        ig,
                    ) by {
                    if q < old_src.len() {
                        assert(src[q] == old_src[q]);
                        assert(out@[q] == old_out[q]);
                    }
                }
                assert forall|e: int|
                    0 <= e < k + 1 && (#[trigger] store.entries@[e]).2 >= MIN_COOCCURRENCES implies exists|q: int|
                        0 <= q < src.len() && #[trigger] src[q] == e by {
                    if e == k {
                        assert(src[old_src.len() as int] == e);
                    } else {
                        let q = choose|q: int| 0 <= q < old_src.len() && #[trigger] old_src[q] == e;
                        assert(src[q] == e);
                    }
                }
            }
        }
        k = k + 1;
    }
    proof {
        assert forall|q1: int, q2: int|
            0 <= q1 < out@.len() && 0 <= q2 < out@.len() && q1 != q2 implies #[trigger] out@[q1].before(out@[q2])
            || #[trigger] out@[q2].before(out@[q1]) by {
            let e1 = src[q1];
            let e2 = src[q2];
            assert(0 <= e1 < store.entries@.len() && out@[q1].a.0 == store.entries@[e1].0 && out@[q1].b.0 == store.entries@[e1].1);
            assert(0 <= e2 < store.entries@.len() && out@[q2].a.0 == store.entries@[e2].0 && out@[q2].b.0 == store.entries@[e2].1);
            if q1 < q2 {
                assert(src[q1] < src[q2]);
            } else {
                assert(src[q2] < src[q1]);
            }
            assert(store.index@[entry_key(store.entries@[e1])] == e1);
            assert(store.index@[entry_key(store.entries@[e2])] == e2);
            lemma_pair_key(store.entries@[e1].0, store.entries@[e1].1, store.entries@[e2].0, store.entries@[e2].1);
        }
    }
    let ghost unsorted = out@;
    let sorted = sort_strict(out);
    proof {
        assert forall|p: int| 0 <= p < sorted@.len() implies edge_of(#[trigger] sorted@[p], cs, window, ig) by {
            assert(sorted@.contains(sorted@[p]));
            let u = choose|u: int| 0 <= u < unsorted.len() && unsorted[u] == sorted@[p];
        }
        assert forall|a: u32, b: u32|
            #[trigger] cooccurrences(cs, window, ig, a, b) >= MIN_COOCCURRENCES implies exists|p: int|
                0 <= p < sorted@.len() && (#[trigger] sorted@[p]).a.0 == a && sorted@[p].b.0 == b by {
            let key = pair_key(a, b);
            assert(store.count(a, b) >= MIN_COOCCURRENCES);
            assert(store.index@.contains_key(key));
            let e = store.index@[key] as int;
            lemma_pair_key(store.entries@[e].0, store.entries@[e].1, a, b);
            assert(store.entries@[e].2 >= MIN_COOCCURRENCES);
            let q = choose|q: int| 0 <= q < src.len() && #[trigger] src[q] == e;
            assert(unsorted[q].a.0 == a && unsorted[q].b.0 == b);
            assert(unsorted.contains(unsorted[q]));
            let p = choose|p: int| 0 <= p < sorted@.len() && sorted@[p] == unsorted[q];
        }
    }
    sorted
}


/// An edge's Jaccard index `cooc / (touches_a + touches_b - cooc)` lies in
/// (0, 1]: the pair was seen together at least once and no more often than
/// either file alone.
pub proof fn lemma_edge_jaccard_bounds(e: CouplingCount, cs: Seq<CommitRecord>, w: Window, ignored: Seq<bool>)
    requires
        edge_of(e, cs, w, ignored),
    ensures
        0 < e.cooc <= e.touches_a,
        e.cooc <= e.touches_b,
        0 < e.cooc <= e.touches_a + e.touches_b - e.cooc,
{
    lemma_coupling_bounds(cs, w, ignored);
    assert(cooccurrences(cs, w, ignored, e.a.0, e.b.0) <= coupling_touches(cs, w, ignored, e.a.0));
}

/// `path` is the one a neighbour query for `target` names: it ends with
/// `target` or is `target`.
pub open spec fn names_path(path: Seq<char>, target: Seq<char>) -> bool {
    ends_with_str(path, target) || path == target
}

/// Position of the first path that `target` names, if any.
pub fn find_named_path(paths: &Vec<String>, target: &str) -> (r: Option<usize>)
    ensures
        match r {
            Some(i) => i < paths@.len() && names_path(paths@[i as int]@, target@) && forall|j: int|
                0 <= j < i ==> !names_path(#[trigger] paths@[j]@, target@),
            None => forall|j: int| 0 <= j < paths@.len() ==> !names_path(#[trigger] paths@[j]@, target@),
        },
{
    let mut i: usize = 0;
    while i < paths.len()
        invariant
            i <= paths@.len(),
            forall|j: int| 0 <= j < i ==> !names_path(#[trigger] paths@[j]@, target@),
        decreases paths@.len() - i,
    {
        let p = paths[i].as_str();
        if str_ends_with(p, target) || str_eq(p, target) {
            return Some(i);
        }
        i = i + 1;
    }
    None
}

} // verus!
