//! Hotspots: files with much churn and much code.
//!
//! Candidates come from the churn ranking, without ignored paths and
//! without files deleted at HEAD (no lines of code there). Each candidate
//! gets its percentile positions by churn and by size; the score, the
//! product of the two fractions, is derived from them by the caller.

use vstd::prelude::*;
use crate::engine::metrics::{lemma_sum_files_nonneg, nonnegative, sum_commits, sum_files, Weight, Window};
use crate::engine::metrics::churn::{
    adds_weight, churn, churn_fits, churn_row_of, churn_rows, dels_weight, file_touches, is_churn_of,
    last_touch, lemma_churn_row_fits, lemma_churn_unique, text_weight, touch_weight, ChurnRow,
};
use crate::engine::metrics::coupling::{allowed, commit_id_list, commit_ids, MAX_FILES_TOUCHED};
use crate::engine::model::{CommitRecord, FileId, FileStat, History};
use crate::text::{contains_str, str_contains};

verus! {

// ------------------------------------------------------------------
// Ignored paths
// ------------------------------------------------------------------

/// Patterns that never name a candidate: generated files and vendored trees.
pub open spec fn default_ignore_patterns() -> Seq<Seq<char>> {
    seq![
        "Cargo.lock"@,
        "package-lock.json"@,
        "yarn.lock"@,
        "pnpm-lock.yaml"@,
        ".min.js"@,
        ".min.css"@,
        "vendor/"@,
        "dist/"@,
        "build/"@,
        "target/"@,
        "node_modules/"@,
    ]
}

/// The patterns that never name a candidate, in order.
pub fn default_ignores() -> (v: Vec<&'static str>)
    ensures
        v@.len() == default_ignore_patterns().len(),
        forall|i: int| 0 <= i < v@.len() ==> (#[trigger] v@[i])@ == default_ignore_patterns()[i],
{
    let mut v: Vec<&'static str> = Vec::new();
    v.push("Cargo.lock");
    v.push("package-lock.json");
    v.push("yarn.lock");
    v.push("pnpm-lock.yaml");
    v.push(".min.js");
    v.push(".min.css");
    v.push("vendor/");
    v.push("dist/");
    v.push("build/");
    v.push("target/");
    v.push("node_modules/");
    v
}

/// `path` contains one of the `extra` patterns or one of the defaults.
pub open spec fn path_ignored(path: Seq<char>, extra: Seq<String>) -> bool {
    ||| exists|k: int| 0 <= k < extra.len() && contains_str(path, #[trigger] extra[k]@)
    ||| exists|k: int|
        0 <= k < default_ignore_patterns().len() && contains_str(path, #[trigger] default_ignore_patterns()[k])
}

/// `true` where the path is left out of the metrics.
pub fn is_ignored(path: &str, extra: &[String]) -> (r: bool)
    ensures
        r == path_ignored(path@, extra@),
{
    let mut k: usize = 0;
    while k < extra.len()
        invariant
            k <= extra@.len(),
            forall|q: int| 0 <= q < k ==> !contains_str(path@, #[trigger] extra@[q]@),
        decreases extra@.len() - k,
    {
        if str_contains(path, extra[k].as_str()) {
            return true;
        }
        k = k + 1;
    }
    let defaults = default_ignores();
    let mut d: usize = 0;
    while d < defaults.len()
        invariant
            d <= defaults@.len(),
            defaults@.len() == default_ignore_patterns().len(),
            forall|i: int| 0 <= i < defaults@.len() ==> (#[trigger] defaults@[i])@ == default_ignore_patterns()[i],
            forall|q: int| 0 <= q < extra@.len() ==> !contains_str(path@, #[trigger] extra@[q]@),
            forall|q: int| 0 <= q < d ==> !contains_str(path@, #[trigger] default_ignore_patterns()[q]),
        decreases defaults@.len() - d,
    {
        if str_contains(path, defaults[d]) {
            assert(defaults@[d as int]@ == default_ignore_patterns()[d as int]);
            return true;
        }
        assert(defaults@[d as int]@ == default_ignore_patterns()[d as int]);
        d = d + 1;
    }
    false
}

/// For each path, whether it is left out of the metrics.
pub fn ignore_mask(paths: &Vec<String>, extra: &[String]) -> (mask: Vec<bool>)
    ensures
        mask@.len() == paths@.len(),
        forall|i: int| 0 <= i < paths@.len() ==> #[trigger] mask@[i] == path_ignored(paths@[i]@, extra@),
{
    let mut mask: Vec<bool> = Vec::new();
    let mut i: usize = 0;
    while i < paths.len()
        invariant
            i <= paths@.len(),
            mask@.len() == i,
            forall|q: int| 0 <= q < i ==> #[trigger] mask@[q] == path_ignored(paths@[q]@, extra@),
        decreases paths@.len() - i,
    {
        mask.push(is_ignored(paths[i].as_str(), extra));
        i = i + 1;
    }
    mask
}


// ------------------------------------------------------------------
// Candidates and ranks
// ------------------------------------------------------------------

/// Lines of code of file `f` at HEAD (zero when unknown or deleted).
pub open spec fn loc_of(locs: Seq<u32>, f: u32) -> u32 {
    if f < locs.len() {
        locs[f as int]
    } else {
        0
    }
}

/// How many churn rows are looked at before the deleted ones leave:
/// ten per wanted row, at least ten.
pub open spec fn pool_size(top_k: nat) -> nat {
    if top_k > 1 {
        top_k * 10
    } else {
        10
    }
}

pub open spec fn eligible_row(ignored: Seq<bool>) -> spec_fn(ChurnRow) -> bool {
    |r: ChurnRow| allowed(r.file.0, ignored)
}

pub open spec fn live_row(locs: Seq<u32>) -> spec_fn(ChurnRow) -> bool {
    |r: ChurnRow| loc_of(locs, r.file.0) > 0
}

/// The hotspot candidates among churn rows `rows` (most churn first): the
/// first `pool_size(top_k)` rows with an allowed path, of those the ones
/// still alive at HEAD, at most `top_k` of them.
pub open spec fn hotspot_candidates(rows: Seq<ChurnRow>, ignored: Seq<bool>, locs: Seq<u32>, top_k: nat) -> Seq<ChurnRow> {
    let e = rows.filter(eligible_row(ignored));
    let head = if e.len() > pool_size(top_k) {
        e.take(pool_size(top_k) as int)
    } else {
        e
    };
    let live = head.filter(live_row(locs));
    if live.len() > top_k {
        live.take(top_k as int)
    } else {
        live
    }
}

/// `d` comes before `c` by churn, then by file id.
pub open spec fn churn_lower(c: ChurnRow) -> spec_fn(ChurnRow) -> bool {
    |d: ChurnRow| d.spec_churn() < c.spec_churn() || (d.spec_churn() == c.spec_churn() && d.file.0 < c.file.0)
}

/// `d` comes before `c` by lines of code, then by file id.
pub open spec fn loc_lower(locs: Seq<u32>, c: ChurnRow) -> spec_fn(ChurnRow) -> bool {
    |d: ChurnRow|
        loc_of(locs, d.file.0) < loc_of(locs, c.file.0) || (loc_of(locs, d.file.0) == loc_of(locs, c.file.0)
            && d.file.0 < c.file.0)
}

/// The ranked candidates of `rows`, in candidate order.
pub open spec fn hotspot_ranking(rows: Seq<ChurnRow>, ignored: Seq<bool>, locs: Seq<u32>, top_k: nat) -> Seq<HotspotRank> {
    let cands = hotspot_candidates(rows, ignored, locs, top_k);
    Seq::new(cands.len(), |k: int| rank_of(cands, locs, k))
}

/// A hotspot candidate with its 1-based positions among all candidates in
/// ascending (churn, file) and (lines, file) order; its score is
/// `churn_rank / n * loc_rank / n` for `n` candidates.
#[derive(Debug, Clone, Copy, PartialEq, Eq, Structural)]
pub struct HotspotRank {
    pub file: FileId,
    pub churn: u32,
    pub loc: u32,
    pub churn_rank: usize,
    pub loc_rank: usize,
}

/// The ranked candidate at position `k` of `cands`.
pub open spec fn rank_of(cands: Seq<ChurnRow>, locs: Seq<u32>, k: int) -> HotspotRank {
    let c = cands[k];
    HotspotRank {
        file: c.file,
        churn: c.spec_churn() as u32,
        loc: loc_of(locs, c.file.0),
        churn_rank: (1 + cands.filter(churn_lower(c)).len()) as usize,
        loc_rank: (1 + cands.filter(loc_lower(locs, c)).len()) as usize,
    }
}

pub(crate) proof fn lemma_filter_step<A>(s: Seq<A>, p: spec_fn(A) -> bool, i: int)
    requires
        0 <= i < s.len(),
    ensures
        s.take(i + 1).filter(p) == if p(s[i]) {
            s.take(i).filter(p).push(s[i])
        } else {
            s.take(i).filter(p)
        },
{
    reveal(Seq::filter);
    assert(s.take(i + 1).drop_last() =~= s.take(i));
    assert(s.take(i + 1).last() == s[i]);
}

pub(crate) proof fn lemma_filter_push<A>(s: Seq<A>, p: spec_fn(A) -> bool, x: A)
    ensures
        s.push(x).filter(p) == if p(x) {
            s.filter(p).push(x)
        } else {
            s.filter(p)
        },
{
    reveal(Seq::filter);
    assert(s.push(x).drop_last() =~= s);
}

pub(crate) proof fn lemma_filter_prefix<A>(s: Seq<A>, p: spec_fn(A) -> bool, i: int, j: int)
    requires
        0 <= i <= j <= s.len(),
    ensures
        s.take(i).filter(p).len() <= s.take(j).filter(p).len(),
        s.take(j).filter(p).take(s.take(i).filter(p).len() as int) == s.take(i).filter(p),
    decreases j - i,
{
    if i == j {
        assert(s.take(i).filter(p).take(s.take(i).filter(p).len() as int) =~= s.take(i).filter(p));
    } else {
        lemma_filter_prefix(s, p, i, j - 1);
        lemma_filter_step(s, p, j - 1);
        let a = s.take(i).filter(p);
        let b = s.take(j - 1).filter(p);
        if p(s[j - 1]) {
            assert(b.push(s[j - 1]).take(a.len() as int) =~= b.take(a.len() as int));
        }
    }
}

pub(crate) proof fn lemma_filter_len<A>(s: Seq<A>, p: spec_fn(A) -> bool)
    ensures
        s.filter(p).len() <= s.len(),
    decreases s.len(),
{
    reveal(Seq::filter);
    if s.len() > 0 {
        lemma_filter_len(s.drop_last(), p);
    }
}

/// The hotspot candidates of `rows`, see `hotspot_candidates`.
fn select_candidates(rows: &Vec<ChurnRow>, ignored: &Vec<bool>, locs: &Vec<u32>, top_k: usize) -> (cands: Vec<ChurnRow>)
    requires
        top_k <= usize::MAX / 10,
    ensures
        cands@ == hotspot_candidates(rows@, ignored@, locs@, top_k as nat),
{
    let ghost el = eligible_row(ignored@);
    let ghost lv = live_row(locs@);
    let pool: usize = if top_k > 1 {
        top_k * 10
    } else {
        10
    };
    let mut taken: usize = 0;
    let mut cands: Vec<ChurnRow> = Vec::new();
    let mut i: usize = 0;
    while i < rows.len() && taken < pool
        invariant
            i <= rows@.len(),
            pool == pool_size(top_k as nat),
            el == eligible_row(ignored@),
            lv == live_row(locs@),
            taken == rows@.take(i as int).filter(el).len(),
            taken <= pool,
            cands@ == rows@.take(i as int).filter(el).filter(lv),
        decreases rows@.len() - i,
    {
        let r = rows[i];
        let f = r.file.0;
        proof {
            lemma_filter_step(rows@, el, i as int);
        }
        let known = (f as usize) < ignored.len();
        if known && !ignored[f as usize] {
            let loc: u32 = if (f as usize) < locs.len() {
                locs[f as usize]
            } else {
                0
            };
            proof {
                lemma_filter_push(rows@.take(i as int).filter(el), lv, r);
            }
            if loc > 0 {
                cands.push(r);
            }
            taken = taken + 1;
        }
        i = i + 1;
    }
    proof {
        let e = rows@.filter(el);
        let ei = rows@.take(i as int).filter(el);
        assert(rows@.take(rows@.len() as int) =~= rows@);
        lemma_filter_prefix(rows@, el, i as int, rows@.len() as int);
        if i == rows@.len() {
            assert(ei == e);
            assert(e.len() <= pool);
        } else {
            assert(taken == pool);
            assert(e.take(pool as int) == ei);
        }
    }
    if cands.len() > top_k {
        cands.truncate(top_k);
    }
    proof {
        let e = rows@.filter(el);
        let head = if e.len() > pool_size(top_k as nat) {
            e.take(pool_size(top_k as nat) as int)
        } else {
            e
        };
        assert(head == rows@.take(i as int).filter(el));
    }
    cands
}


/// Each candidate with its positions by churn and by size.
fn rank_candidates(cands: &Vec<ChurnRow>, locs: &Vec<u32>) -> (ranks: Vec<HotspotRank>)
    requires
        forall|k: int| 0 <= k < cands@.len() ==> (#[trigger] cands@[k]).adds + cands@[k].dels <= u32::MAX,
    ensures
        ranks@.len() == cands@.len(),
        forall|k: int| 0 <= k < cands@.len() ==> #[trigger] ranks@[k] == rank_of(cands@, locs@, k),
{
    let n = cands.len();
    let mut ranks: Vec<HotspotRank> = Vec::new();
    let mut k: usize = 0;
    while k < n
        invariant
            n == cands@.len(),
            k <= n,
            ranks@.len() == k,
            forall|q: int| 0 <= q < cands@.len() ==> (#[trigger] cands@[q]).adds + cands@[q].dels <= u32::MAX,
            forall|q: int| 0 <= q < k ==> #[trigger] ranks@[q] == rank_of(cands@, locs@, q),
        decreases n - k,
    {
        let c = cands[k];
        let c_churn = c.churn();
        let c_loc: u32 = if (c.file.0 as usize) < locs.len() {
            locs[c.file.0 as usize]
        } else {
            0
        };
        let ghost pc = churn_lower(c);
        let ghost pl = loc_lower(locs@, c);
        let mut below_churn: usize = 0;
        let mut below_loc: usize = 0;
        let mut j: usize = 0;
        while j < n
            invariant
                n == cands@.len(),
                k < n,
                c == cands@[k as int],
                c_churn == c.spec_churn(),
                c_loc == loc_of(locs@, c.file.0),
                pc == churn_lower(c),
                pl == loc_lower(locs@, c),
                j <= n,
                forall|q: int| 0 <= q < cands@.len() ==> (#[trigger] cands@[q]).adds + cands@[q].dels <= u32::MAX,
                below_churn == cands@.take(j as int).filter(pc).len(),
                below_loc == cands@.take(j as int).filter(pl).len(),
                below_churn + (if j > k { 1int } else { 0int }) <= j,
                below_loc + (if j > k { 1int } else { 0int }) <= j,
            decreases n - j,
        {
            let d = cands[j];
            let d_churn = d.churn();
            let d_loc: u32 = if (d.file.0 as usize) < locs.len() {
                locs[d.file.0 as usize]
            } else {
                0
            };
            proof {
                lemma_filter_step(cands@, pc, j as int);
                lemma_filter_step(cands@, pl, j as int);
            }
            if d_churn < c_churn || (d_churn == c_churn && d.file.0 < c.file.0) {
                below_churn = below_churn + 1;
            }
            if d_loc < c_loc || (d_loc == c_loc && d.file.0 < c.file.0) {
                below_loc = below_loc + 1;
            }
            j = j + 1;
        }
        proof {
            assert(cands@.take(n as int) =~= cands@);
        }
        ranks.push(
            HotspotRank { file: c.file, churn: c_churn, loc: c_loc, churn_rank: below_churn + 1, loc_rank: below_loc + 1 },
        );
        k = k + 1;
    }
    ranks
}

/// The hotspot candidates of churn rows `rows` (most churn first), ranked:
/// see `hotspot_candidates` and `rank_of`. `ignored[f]` tells whether the
/// path of file `f` is left out; `locs[f]` is its size at HEAD.
pub fn hotspot_ranks(rows: &Vec<ChurnRow>, ignored: &Vec<bool>, locs: &Vec<u32>, top_k: usize) -> (ranks: Vec<HotspotRank>)
    requires
        top_k <= usize::MAX / 10,
        forall|k: int| 0 <= k < rows@.len() ==> (#[trigger] rows@[k]).adds + rows@[k].dels <= u32::MAX,
    ensures
        ranks@ == hotspot_ranking(rows@, ignored@, locs@, top_k as nat),
{
    let cands = select_candidates(rows, ignored, locs, top_k);
    proof {
        lemma_candidates_from_rows(rows@, ignored@, locs@, top_k as nat);
        assert forall|k: int| 0 <= k < cands@.len() implies (#[trigger] cands@[k]).adds + cands@[k].dels <= u32::MAX by {
            assert(cands@.contains(cands@[k]));
            assert(hotspot_candidates(rows@, ignored@, locs@, top_k as nat).contains(cands@[k]));
            assert(rows@.contains(cands@[k]));
            let i = choose|i: int| 0 <= i < rows@.len() && rows@[i] == cands@[k];
            assert(rows@[i].adds + rows@[i].dels <= u32::MAX);
        }
    }
    let ranks = rank_candidates(&cands, locs);
    assert(ranks@ =~= hotspot_ranking(rows@, ignored@, locs@, top_k as nat));
    ranks
}

/// A commit that counts for hotspots: at most `MAX_FILES_TOUCHED` distinct
/// allowed files (larger ones are vendoring or lockfile noise).
pub open spec fn not_mega(ignored: Seq<bool>) -> spec_fn(CommitRecord) -> bool {
    |c: CommitRecord| commit_ids(c.files@, ignored).len() <= MAX_FILES_TOUCHED
}

/// The commits of `cs` that count for hotspots.
pub open spec fn hotspot_commits(cs: Seq<CommitRecord>, ignored: Seq<bool>) -> Seq<CommitRecord> {
    cs.filter(not_mega(ignored))
}

proof fn lemma_sum_filtered(cs: Seq<CommitRecord>, p: spec_fn(CommitRecord) -> bool, w: Window, g: Weight)
    requires
        nonnegative(g),
    ensures
        0 <= sum_commits(cs.filter(p), w, g) <= sum_commits(cs, w, g),
    decreases cs.len(),
{
    reveal(Seq::filter);
    if cs.len() > 0 {
        lemma_sum_filtered(cs.drop_last(), p, w, g);
        lemma_sum_files_nonneg(cs.last(), cs.last().files@, g);
        if p(cs.last()) {
            let f = cs.drop_last().filter(p);
            assert(f.push(cs.last()).drop_last() =~= f);
        }
    } else {
        assert(cs.filter(p) =~= cs);
    }
}

/// The commits that count for hotspots fit whenever all commits fit.
proof fn lemma_hotspot_commits_fit(cs: Seq<CommitRecord>, ignored: Seq<bool>, w: Window)
    requires
        churn_fits(cs, w),
    ensures
        churn_fits(hotspot_commits(cs, ignored), w),
{
    let h = hotspot_commits(cs, ignored);
    assert forall|f: u32|
        #![trigger sum_commits(h, w, adds_weight(f))]
        sum_commits(h, w, adds_weight(f)) + sum_commits(h, w, dels_weight(f)) <= u32::MAX && sum_commits(
            h,
            w,
            touch_weight(f),
        ) <= u32::MAX by {
        assert(sum_commits(cs, w, adds_weight(f)) + sum_commits(cs, w, dels_weight(f)) <= u32::MAX);
        assert(nonnegative(adds_weight(f)));
        assert(nonnegative(dels_weight(f)));
        assert(nonnegative(touch_weight(f)));
        lemma_sum_filtered(cs, not_mega(ignored), w, adds_weight(f));
        lemma_sum_filtered(cs, not_mega(ignored), w, dels_weight(f));
        lemma_sum_filtered(cs, not_mega(ignored), w, touch_weight(f));
    }
}

/// `a` and `b` hold the same values (their file lists by view).
pub open spec fn same_commit(a: CommitRecord, b: CommitRecord) -> bool {
    &&& a.oid == b.oid
    &&& a.time == b.time
    &&& a.author == b.author
    &&& a.n_parents == b.n_parents
    &&& a.files@ == b.files@
}

/// Two commit sequences that agree commit by commit.
pub open spec fn same_commits(x: Seq<CommitRecord>, y: Seq<CommitRecord>) -> bool {
    x.len() == y.len() && forall|i: int| 0 <= i < x.len() ==> same_commit(#[trigger] x[i], y[i])
}

/// A weight that looks at the file stat alone.
pub open spec fn stat_only(g: Weight) -> bool {
    forall|a: CommitRecord, b: CommitRecord, s: FileStat| #[trigger] g(a, s) == #[trigger] g(b, s)
}

proof fn lemma_sum_files_same(a: CommitRecord, b: CommitRecord, files: Seq<FileStat>, g: Weight)
    requires
        stat_only(g),
    ensures
        sum_files(a, files, g) == sum_files(b, files, g),
    decreases files.len(),
{
    if files.len() > 0 {
        lemma_sum_files_same(a, b, files.drop_last(), g);
        assert(g(a, files.last()) == g(b, files.last()));
    }
}

proof fn lemma_sum_commits_same(x: Seq<CommitRecord>, y: Seq<CommitRecord>, w: Window, g: Weight)
    requires
        same_commits(x, y),
        stat_only(g),
    ensures
        sum_commits(x, w, g) == sum_commits(y, w, g),
    decreases x.len(),
{
    if x.len() > 0 {
        let n = x.len() - 1;
        assert(same_commit(x[n], y[n]));
        assert(same_commits(x.drop_last(), y.drop_last())) by {
            assert forall|i: int| 0 <= i < x.drop_last().len() implies same_commit(
                #[trigger] x.drop_last()[i],
                y.drop_last()[i],
            ) by {
                assert(same_commit(x[i], y[i]));
            }
        }
        lemma_sum_commits_same(x.drop_last(), y.drop_last(), w, g);
        lemma_sum_files_same(x.last(), y.last(), x.last().files@, g);
    }
}

proof fn lemma_last_touch_same(x: Seq<CommitRecord>, y: Seq<CommitRecord>, w: Window, f: u32)
    requires
        same_commits(x, y),
    ensures
        last_touch(x, w, f) == last_touch(y, w, f),
    decreases x.len(),
{
    if x.len() > 0 {
        let n = x.len() - 1;
        assert(same_commit(x[n], y[n]));
        assert(same_commits(x.drop_last(), y.drop_last())) by {
            assert forall|i: int| 0 <= i < x.drop_last().len() implies same_commit(
                #[trigger] x.drop_last()[i],
                y.drop_last()[i],
            ) by {
                assert(same_commit(x[i], y[i]));
            }
        }
        lemma_last_touch_same(x.drop_last(), y.drop_last(), w, f);
        assert(stat_only(touch_weight(f)));
        lemma_sum_files_same(x.last(), y.last(), x.last().files@, touch_weight(f));
    }
}

/// Churn reads commits by value: sequences that agree commit by commit give
/// the same rows and the same bounds.
proof fn lemma_churn_same(x: Seq<CommitRecord>, y: Seq<CommitRecord>, w: Window, f: u32)
    requires
        same_commits(x, y),
    ensures
        churn_row_of(x, w, f) == churn_row_of(y, w, f),
        file_touches(x, w, f) == file_touches(y, w, f),
        sum_commits(x, w, adds_weight(f)) == sum_commits(y, w, adds_weight(f)),
        sum_commits(x, w, dels_weight(f)) == sum_commits(y, w, dels_weight(f)),
{
    assert(stat_only(adds_weight(f)));
    assert(stat_only(dels_weight(f)));
    assert(stat_only(touch_weight(f)));
    assert(stat_only(text_weight(f)));
    lemma_sum_commits_same(x, y, w, adds_weight(f));
    lemma_sum_commits_same(x, y, w, dels_weight(f));
    lemma_sum_commits_same(x, y, w, touch_weight(f));
    lemma_sum_commits_same(x, y, w, text_weight(f));
    lemma_last_touch_same(x, y, w, f);
}

fn copy_commit(c: &CommitRecord) -> (r: CommitRecord)
    ensures
        same_commit(r, *c),
{
    let mut files: Vec<FileStat> = Vec::new();
    let mut k: usize = 0;
    while k < c.files.len()
        invariant
            k <= c.files@.len(),
            files@ == c.files@.take(k as int),
        decreases c.files@.len() - k,
    {
        files.push(c.files[k]);
        assert(c.files@.take(k + 1) =~= c.files@.take(k as int).push(c.files@[k as int]));
        k = k + 1;
    }
    assert(c.files@.take(k as int) =~= c.files@);
    CommitRecord { oid: c.oid, time: c.time, author: c.author, n_parents: c.n_parents, files }
}

/// The ranked hotspot candidates of the churn inside `window`, mega-commits
/// left out; see `hotspot_ranks`.
pub fn rank_hotspots(history: &History, window: Window, ignored: &Vec<bool>, locs: &Vec<u32>, top_k: usize) -> (ranks: Vec<
    HotspotRank,
>)
    requires
        churn_fits(history.commits@, window),
        top_k <= usize::MAX / 10,
    ensures
        ranks@ == hotspot_ranking(
            churn_rows(hotspot_commits(history.commits@, ignored@), window),
            ignored@,
            locs@,
            top_k as nat,
        ),
{
    let ghost cs = history.commits@;
    let ghost p = not_mega(ignored@);
    let mut kept: Vec<CommitRecord> = Vec::new();
    let mut i: usize = 0;
    while i < history.commits.len()
        invariant
            cs == history.commits@,
            p == not_mega(ignored@),
            i <= cs.len(),
            same_commits(kept@, cs.take(i as int).filter(p)),
        decreases cs.len() - i,
    {
        let c = &history.commits[i];
        proof {
            lemma_filter_step(cs, p, i as int);
        }
        let ids = commit_id_list(&c.files, ignored);
        let ghost before = kept@;
        if ids.len() <= MAX_FILES_TOUCHED {
            let copy = copy_commit(c);
            kept.push(copy);
            proof {
                let t = cs.take(i as int).filter(p);
                assert forall|j: int| 0 <= j < kept@.len() implies same_commit(
                    #[trigger] kept@[j],
                    t.push(cs[i as int])[j],
                ) by {
                    if j < before.len() {
                        assert(same_commit(before[j], t[j]));
                    }
                }
            }
        }
        i = i + 1;
    }
    assert(cs.take(i as int) =~= cs);
    let filtered = History { commits: kept, authors: Vec::new(), paths: Vec::new() };
    let ghost hs = hotspot_commits(cs, ignored@);
    proof {
        lemma_hotspot_commits_fit(cs, ignored@, window);
        assert forall|f: u32| #![trigger sum_commits(filtered.commits@, window, adds_weight(f))]
            sum_commits(filtered.commits@, window, adds_weight(f)) + sum_commits(
                filtered.commits@,
                window,
                dels_weight(f),
            ) <= u32::MAX && sum_commits(filtered.commits@, window, touch_weight(f)) <= u32::MAX by {
            lemma_churn_same(filtered.commits@, hs, window, f);
            assert(sum_commits(hs, window, adds_weight(f)) + sum_commits(hs, window, dels_weight(f)) <= u32::MAX);
        }
    }
    let rows = churn(&filtered, window);
    proof {
        let fc = filtered.commits@;
        assert forall|k: int| 0 <= k < rows@.len() implies (#[trigger] rows@[k]).adds + rows@[k].dels <= u32::MAX by {
            let f = rows@[k].file.0;
            lemma_churn_row_fits(fc, window, f);
        }
        assert forall|k: int| 0 <= k < rows@.len() implies #[trigger] rows@[k] == churn_row_of(hs, window, rows@[k].file.0)
            && file_touches(hs, window, rows@[k].file.0) > 0 by {
            lemma_churn_same(fc, hs, window, rows@[k].file.0);
        }
        assert forall|f: u32| file_touches(hs, window, f) > 0 implies exists|k: int|
            0 <= k < rows@.len() && #[trigger] rows@[k].file.0 == f by {
            lemma_churn_same(fc, hs, window, f);
        }
        assert(is_churn_of(rows@, hs, window));
        lemma_churn_unique(rows@, churn_rows(hs, window), hs, window);
    }
    hotspot_ranks(&rows, ignored, locs, top_k)
}

pub(crate) proof fn lemma_filter_members<A>(s: Seq<A>, p: spec_fn(A) -> bool)
    ensures
        forall|x: A| s.filter(p).contains(x) ==> s.contains(x),
    decreases s.len(),
{
    reveal(Seq::filter);
    if s.len() > 0 {
        lemma_filter_members(s.drop_last(), p);
        assert forall|x: A| s.filter(p).contains(x) implies s.contains(x) by {
            if s.drop_last().filter(p).contains(x) {
                assert(s.drop_last().contains(x));
                let i = choose|i: int| 0 <= i < s.drop_last().len() && s.drop_last()[i] == x;
                assert(s[i] == x);
            } else {
                assert(x == s.last());
                assert(s[s.len() - 1] == x);
            }
        }
    }
}

/// Every candidate is one of the rows.
proof fn lemma_candidates_from_rows(rows: Seq<ChurnRow>, ignored: Seq<bool>, locs: Seq<u32>, top_k: nat)
    ensures
        forall|x: ChurnRow| hotspot_candidates(rows, ignored, locs, top_k).contains(x) ==> rows.contains(x),
{
    let e = rows.filter(eligible_row(ignored));
    let head = if e.len() > pool_size(top_k) {
        e.take(pool_size(top_k) as int)
    } else {
        e
    };
    let live = head.filter(live_row(locs));
    lemma_filter_members(rows, eligible_row(ignored));
    lemma_filter_members(head, live_row(locs));
    assert forall|x: ChurnRow| hotspot_candidates(rows, ignored, locs, top_k).contains(x) implies rows.contains(x) by {
        let c = hotspot_candidates(rows, ignored, locs, top_k);
        let i = choose|i: int| 0 <= i < c.len() && c[i] == x;
        assert(live.contains(x)) by {
            assert(live[i] == x);
        }
        assert(head.contains(x));
        let h = choose|h: int| 0 <= h < head.len() && head[h] == x;
        assert(e[h] == x);
        assert(e.contains(x));
    }
}


proof fn lemma_filter_misses(s: Seq<ChurnRow>, p: spec_fn(ChurnRow) -> bool, k: int)
    requires
        0 <= k < s.len(),
        !p(s[k]),
    ensures
        s.filter(p).len() < s.len(),
    decreases s.len(),
{
    reveal(Seq::filter);
    if k < s.len() - 1 {
        lemma_filter_misses(s.drop_last(), p, k);
    } else {
        lemma_filter_len(s.drop_last(), p);
    }
}

/// Ranks are 1-based positions among the `n` candidates, so each score
/// factor `rank / n` lies in (0, 1].
pub proof fn lemma_rank_bounds(cands: Seq<ChurnRow>, locs: Seq<u32>, k: int)
    requires
        0 <= k < cands.len(),
    ensures
        1 <= 1 + cands.filter(churn_lower(cands[k])).len() <= cands.len(),
        1 <= 1 + cands.filter(loc_lower(locs, cands[k])).len() <= cands.len(),
{
    lemma_filter_misses(cands, churn_lower(cands[k]), k);
    lemma_filter_misses(cands, loc_lower(locs, cands[k]), k);
}


/// A path that holds a lockfile name, a minified asset suffix, or a
/// vendored or build directory is ignored, whatever extra patterns are given.
pub proof fn lemma_default_patterns_ignored(path: Seq<char>, extra: Seq<String>)
    ensures
        contains_str(path, "Cargo.lock"@) ==> path_ignored(path, extra),
        contains_str(path, "package-lock.json"@) ==> path_ignored(path, extra),
        contains_str(path, "yarn.lock"@) ==> path_ignored(path, extra),
        contains_str(path, "pnpm-lock.yaml"@) ==> path_ignored(path, extra),
        contains_str(path, ".min.js"@) ==> path_ignored(path, extra),
        contains_str(path, ".min.css"@) ==> path_ignored(path, extra),
        contains_str(path, "vendor/"@) ==> path_ignored(path, extra),
        contains_str(path, "dist/"@) ==> path_ignored(path, extra),
        contains_str(path, "build/"@) ==> path_ignored(path, extra),
        contains_str(path, "target/"@) ==> path_ignored(path, extra),
        contains_str(path, "node_modules/"@) ==> path_ignored(path, extra),
{
    let d = default_ignore_patterns();
    assert(contains_str(path, "Cargo.lock"@) ==> contains_str(path, d[0]));
    assert(contains_str(path, "package-lock.json"@) ==> contains_str(path, d[1]));
    assert(contains_str(path, "yarn.lock"@) ==> contains_str(path, d[2]));
    assert(contains_str(path, "pnpm-lock.yaml"@) ==> contains_str(path, d[3]));
    assert(contains_str(path, ".min.js"@) ==> contains_str(path, d[4]));
    assert(contains_str(path, ".min.css"@) ==> contains_str(path, d[5]));
    assert(contains_str(path, "vendor/"@) ==> contains_str(path, d[6]));
    assert(contains_str(path, "dist/"@) ==> contains_str(path, d[7]));
    assert(contains_str(path, "build/"@) ==> contains_str(path, d[8]));
    assert(contains_str(path, "target/"@) ==> contains_str(path, d[9]));
    assert(contains_str(path, "node_modules/"@) ==> contains_str(path, d[10]));
}


/// Nothing else is ignored by default: a path holding none of the default
/// patterns and none of the `extra` ones is kept.
pub proof fn lemma_only_patterns_ignored(path: Seq<char>, extra: Seq<String>)
    requires
        !contains_str(path, "Cargo.lock"@),
        !contains_str(path, "package-lock.json"@),
        !contains_str(path, "yarn.lock"@),
        !contains_str(path, "pnpm-lock.yaml"@),
        !contains_str(path, ".min.js"@),
        !contains_str(path, ".min.css"@),
        !contains_str(path, "vendor/"@),
        !contains_str(path, "dist/"@),
        !contains_str(path, "build/"@),
        !contains_str(path, "target/"@),
        !contains_str(path, "node_modules/"@),
        forall|k: int| 0 <= k < extra.len() ==> !contains_str(path, #[trigger] extra[k]@),
    ensures
        !path_ignored(path, extra),
{
    let d = default_ignore_patterns();
    assert forall|k: int| 0 <= k < d.len() implies !contains_str(path, #[trigger] d[k]) by {
        if k == 0 {
            assert(d[k] == "Cargo.lock"@);
        }
        if k == 1 {
            assert(d[k] == "package-lock.json"@);
        }
        if k == 2 {
            assert(d[k] == "yarn.lock"@);
        }
        if k == 3 {
            assert(d[k] == "pnpm-lock.yaml"@);
        }
        if k == 4 {
            assert(d[k] == ".min.js"@);
        }
        if k == 5 {
            assert(d[k] == ".min.css"@);
        }
        if k == 6 {
            assert(d[k] == "vendor/"@);
        }
        if k == 7 {
            assert(d[k] == "dist/"@);
        }
        if k == 8 {
            assert(d[k] == "build/"@);
        }
        if k == 9 {
            assert(d[k] == "target/"@);
        }
        if k == 10 {
            assert(d[k] == "node_modules/"@);
        }
    }
}

} // verus!
