//! Walk of the commit graph from HEAD: the decisions of a breadth-first
//! walk with a seen-set, a commit limit and an optional splice set, and
//! the interning of what the walk read.
//!
//! The caller reads each commit the walk asks for and reports its parents;
//! the walk decides what to read next and when to stop. The commits it read
//! are then put newest first, each before its parents, by
//! `topo::walk_order`.

use vstd::prelude::*;
use vstd::hash_map::HashMapWithView;
use crate::engine::git::diff::{lemma_binary_stats_count_no_lines, spec_change_stats, stat_view, TreeChange};
use crate::engine::model::{
    author_keys, last_index_of, lemma_last_index_of_found, lemma_last_index_of_push,
    lemma_new_keys_push, new_keys, path_views, AuthorId, AuthorInfo, AuthorInterner,
    CommitRecord, FileId, FileStat, Oid, PathInterner,
};

verus! {

broadcast use {vstd::std_specs::hash::group_hash_axioms, vstd::array::group_array_axioms};

/// What a walk produced: records with their own interned tables.
#[derive(Debug)]
pub struct ScanOutput {
    pub records: Vec<CommitRecord>,
    pub authors: Vec<AuthorInfo>,
    pub paths: Vec<String>,
    /// Cached commit where the walk stopped (only when a splice set is given).
    pub splice: Option<Oid>,
}

// ------------------------------------------------------------------
// A set of object ids
// ------------------------------------------------------------------

/// Bucket of an object id: its first eight bytes.
pub open spec fn oid_bucket(o: Seq<u8>) -> u64 {
    ((o[0] as u64) << 56u64) | ((o[1] as u64) << 48u64) | ((o[2] as u64) << 40u64) | ((o[3] as u64)
        << 32u64) | ((o[4] as u64) << 24u64) | ((o[5] as u64) << 16u64) | ((o[6] as u64) << 8u64)
        | (o[7] as u64)
}

pub(crate) fn bucket_of(o: &Oid) -> (k: u64)
    ensures
        k == oid_bucket(o@),
{
    ((o[0] as u64) << 56u64) | ((o[1] as u64) << 48u64) | ((o[2] as u64) << 40u64) | ((o[3] as u64)
        << 32u64) | ((o[4] as u64) << 24u64) | ((o[5] as u64) << 16u64) | ((o[6] as u64) << 8u64)
        | (o[7] as u64)
}

pub(crate) fn same_oid(a: &Oid, b: &Oid) -> (r: bool)
    ensures
        r == (a@ == b@),
{
    let mut i: usize = 0;
    while i < 20
        invariant
            i <= 20,
            forall|k: int| 0 <= k < i ==> a@[k] == b@[k],
        decreases 20 - i,
    {
        if a[i] != b[i] {
            return false;
        }
        i = i + 1;
    }
    assert(a@ =~= b@);
    true
}

/// A set of object ids, hashed by their first bytes.
pub struct OidSet {
    buckets: HashMapWithView<u64, Vec<Oid>>,
}

impl OidSet {
    /// `o` is in the set.
    pub closed spec fn has(&self, o: Seq<u8>) -> bool {
        &&& self.buckets@.contains_key(oid_bucket(o))
        &&& exists|i: int|
            0 <= i < self.buckets@[oid_bucket(o)]@.len() && (#[trigger] self.buckets@[oid_bucket(
                o,
            )]@[i])@ == o
    }

    pub fn new() -> (r: Self)
        ensures
            forall|o: Seq<u8>| !r.has(o),
    {
        OidSet { buckets: HashMapWithView::new() }
    }

    pub fn contains(&self, o: &Oid) -> (r: bool)
        ensures
            r == self.has(o@),
    {
        let k = bucket_of(o);
        match self.buckets.get(&k) {
            None => false,
            Some(v) => {
                let mut i: usize = 0;
                while i < v.len()
                    invariant
                        i <= v@.len(),
                        self.buckets@.contains_key(k),
                        *v == self.buckets@[k],
                        k == oid_bucket(o@),
                        forall|q: int| 0 <= q < i ==> (#[trigger] v@[q])@ != o@,
                    decreases v@.len() - i,
                {
                    if same_oid(&v[i], o) {
                        return true;
                    }
                    i = i + 1;
                }
                false
            },
        }
    }

    pub fn insert(&mut self, o: Oid)
        ensures
            forall|x: Seq<u8>| #[trigger] final(self).has(x) <==> (old(self).has(x) || x == o@),
    {
        let k = bucket_of(&o);
        let ghost old_map = self.buckets@;
        match self.buckets.remove(&k) {
            Some(v) => {
                let mut v = v;
                let ghost old_v = v@;
                v.push(o);
                self.buckets.insert(k, v);
                assert forall|x: Seq<u8>| #[trigger] self.has(x) <==> (old(self).has(x) || x == o@) by {
                    if oid_bucket(x) == k {
                        if old(self).has(x) {
                            let i = choose|i: int|
                                0 <= i < old_map[k]@.len() && (#[trigger] old_map[k]@[i])@ == x;
                            assert(self.buckets@[k]@[i] == old_v[i]);
                        }
                        if self.has(x) {
                            let i = choose|i: int|
                                0 <= i < self.buckets@[k]@.len() && (#[trigger] self.buckets@[k]@[i])@ == x;
                            if i < old_v.len() {
                                assert(old_v[i] == self.buckets@[k]@[i]);
                            }
                        }
                        if x == o@ {
                            assert(self.buckets@[k]@[old_v.len() as int] == o);
                        }
                    } else {
                        let b = oid_bucket(x);
                        assert(self.buckets@.contains_key(b) == old_map.contains_key(b));
                        if old_map.contains_key(b) {
                            assert(self.buckets@[b] == old_map[b]);
                        }
                    }
                }
            },
            None => {
                let mut v: Vec<Oid> = Vec::new();
                v.push(o);
                self.buckets.insert(k, v);
                assert forall|x: Seq<u8>| #[trigger] self.has(x) <==> (old(self).has(x) || x == o@) by {
                    if oid_bucket(x) == k {
                        if self.has(x) {
                            let i = choose|i: int|
                                0 <= i < self.buckets@[k]@.len() && (#[trigger] self.buckets@[k]@[i])@ == x;
                            assert(i == 0);
                        }
                        if x == o@ {
                            assert(self.buckets@[k]@[0] == o);
                        }
                    } else {
                        let b = oid_bucket(x);
                        assert(self.buckets@.contains_key(b) == old_map.contains_key(b));
                        if old_map.contains_key(b) {
                            assert(self.buckets@[b] == old_map[b]);
                        }
                    }
                }
            },
        }
    }
}

/// A set holding exactly the ids of `oids`.
pub fn oid_set_of(oids: &Vec<Oid>) -> (s: OidSet)
    ensures
        forall|x: Seq<u8>| #[trigger] s.has(x) <==> exists|k: int| 0 <= k < oids@.len() && (#[trigger] oids@[k])@ == x,
{
    let mut s = OidSet::new();
    let mut i: usize = 0;
    while i < oids.len()
        invariant
            i <= oids@.len(),
            forall|x: Seq<u8>| #[trigger] s.has(x) <==> exists|k: int| 0 <= k < i && (#[trigger] oids@[k])@ == x,
        decreases oids@.len() - i,
    {
        s.insert(oids[i]);
        assert forall|x: Seq<u8>| #[trigger] s.has(x) <==> exists|k: int| 0 <= k < i + 1 && (#[trigger] oids@[k])@ == x by {
            if x == oids@[i as int]@ {
                assert(oids@[i as int]@ == x);
            }
        }
        i = i + 1;
    }
    s
}

// ------------------------------------------------------------------
// The walk
// ------------------------------------------------------------------

/// What the walk asks for next.
#[derive(Debug, Clone, Copy, PartialEq, Eq)]
pub enum WalkStep {
    /// Read this commit and report its parents.
    Visit(Oid),
    /// The walk is over.
    Done,
}

/// The abstract state of a walk.
pub struct WalkModel {
    /// Commits queued, oldest first.
    pub pending: Seq<Seq<u8>>,
    pub seen: Set<Seq<u8>>,
    /// Commits visited so far.
    pub count: nat,
    pub max_commits: nat,
    /// Where the walk stops: a cached commit.
    pub stop_at: Option<Set<Seq<u8>>>,
    pub splice: Option<Seq<u8>>,
    pub done: bool,
}

/// One decision of the walk: skip seen commits, stop at the limit, at an
/// empty queue or at a cached commit, or visit the next commit.
pub open spec fn walk_next(m: WalkModel) -> (WalkModel, Option<Seq<u8>>)
    decreases m.pending.len(),
{
    if m.done || m.pending.len() == 0 {
        (WalkModel { done: true, ..m }, None)
    } else {
        let o = m.pending[0];
        let rest = m.pending.drop_first();
        if m.count >= m.max_commits {
            (WalkModel { pending: rest, done: true, ..m }, None)
        } else if m.seen.contains(o) {
            walk_next(WalkModel { pending: rest, ..m })
        } else {
            let seen = m.seen.insert(o);
            match m.stop_at {
                Some(stop) if stop.contains(o) => (
                    WalkModel { pending: rest, seen, splice: Some(o), done: true, ..m },
                    None,
                ),
                _ => (WalkModel { pending: rest, seen, ..m }, Some(o)),
            }
        }
    }
}

/// One step of the walk never forgets a commit it has seen, hands out only
/// unseen commits (which it then counts as seen) while under the limit, and
/// splices only onto a cached commit.
pub proof fn lemma_walk_step(m: WalkModel)
    ensures
        m.seen.subset_of(walk_next(m).0.seen),
        walk_next(m).0.count == m.count,
        walk_next(m).0.max_commits == m.max_commits,
        walk_next(m).0.stop_at == m.stop_at,
        walk_next(m).1 matches Some(o) ==> {
            &&& !m.seen.contains(o)
            &&& walk_next(m).0.seen.contains(o)
            &&& m.count < m.max_commits
            &&& !walk_next(m).0.done
        },
        walk_next(m).1 is None ==> walk_next(m).0.done,
        walk_next(m).0.splice != m.splice ==> {
            &&& walk_next(m).0.splice matches Some(o)
            &&& m.stop_at matches Some(stop)
            &&& stop.contains(o)
        },
    decreases m.pending.len(),
{
    if !(m.done || m.pending.len() == 0) {
        let o = m.pending[0];
        let rest = m.pending.drop_first();
        if m.count < m.max_commits && m.seen.contains(o) {
            lemma_walk_step(WalkModel { pending: rest, ..m });
        }
    }
}

/// Once a commit is seen, no later step hands it out again: each commit is
/// visited at most once.
pub proof fn lemma_walk_visits_once(m: WalkModel, o: Seq<u8>)
    requires
        m.seen.contains(o),
    ensures
        walk_next(m).1 != Some(o),
        walk_next(m).0.seen.contains(o),
{
    lemma_walk_step(m);
}

proof fn lemma_walk_seen_later(ms: Seq<WalkModel>, outs: Seq<Seq<u8>>, i: int, j: int)
    requires
        ms.len() == outs.len() + 1,
        forall|k: int| 0 <= k < outs.len() ==> #[trigger] walk_next(ms[k]).1 == Some(outs[k]),
        forall|k: int| 0 <= k < outs.len() ==> (#[trigger] walk_next(ms[k]).0).seen.subset_of(ms[k + 1].seen),
        0 <= i < j <= outs.len(),
    ensures
        ms[j].seen.contains(outs[i]),
    decreases j - i,
{
    if j == i + 1 {
        lemma_walk_step(ms[i]);
        assert(walk_next(ms[i]).1 == Some(outs[i]));
        assert(walk_next(ms[i]).0.seen.subset_of(ms[i + 1].seen));
    } else {
        lemma_walk_seen_later(ms, outs, i, j - 1);
        lemma_walk_step(ms[j - 1]);
        assert(walk_next(ms[j - 1]).0.seen.subset_of(ms[j].seen));
    }
}

/// Over a whole walk (each state comes from the step before it and from the
/// parents the caller reported, which keep every seen commit seen), the
/// commits handed out are pairwise distinct.
pub proof fn lemma_walk_hands_out_distinct(ms: Seq<WalkModel>, outs: Seq<Seq<u8>>)
    requires
        ms.len() == outs.len() + 1,
        forall|k: int| 0 <= k < outs.len() ==> #[trigger] walk_next(ms[k]).1 == Some(outs[k]),
        forall|k: int| 0 <= k < outs.len() ==> (#[trigger] walk_next(ms[k]).0).seen.subset_of(ms[k + 1].seen),
    ensures
        outs.no_duplicates(),
{
    assert forall|i: int, j: int| 0 <= i < j < outs.len() implies outs[i] != outs[j] by {
        lemma_walk_seen_later(ms, outs, i, j);
        lemma_walk_step(ms[j]);
        assert(walk_next(ms[j]).1 == Some(outs[j]));
    }
}

// ------------------------------------------------------------------
// Whole walks over a parent function
// ------------------------------------------------------------------

/// `path` follows parent links: each entry is a parent of the one before.
pub open spec fn parent_chain(parents: spec_fn(Seq<u8>) -> Seq<Seq<u8>>, path: Seq<Seq<u8>>) -> bool {
    forall|k: int| 1 <= k < path.len() ==> parents(path[k - 1]).contains(#[trigger] path[k])
}

/// `o` is `from` or one of its ancestors under `parents`.
pub open spec fn reachable(parents: spec_fn(Seq<u8>) -> Seq<Seq<u8>>, from: Seq<u8>, o: Seq<u8>) -> bool {
    exists|path: Seq<Seq<u8>>|
        #[trigger] parent_chain(parents, path) && path.len() >= 1 && path[0] == from && path.last() == o
}

/// The state a walk from `head` starts in.
pub open spec fn walk_start(head: Seq<u8>, max_commits: nat, stop_at: Option<Set<Seq<u8>>>) -> WalkModel {
    WalkModel {
        pending: seq![head],
        seen: Set::empty(),
        count: 0,
        max_commits,
        stop_at,
        splice: None,
        done: false,
    }
}

/// `ms` and `outs` are a walk in which the caller read each commit handed
/// out and reported `parents` of it: `ms[k]` is the state before the k-th
/// step, `outs[k]` the commit that step handed out.
pub open spec fn walk_run(ms: Seq<WalkModel>, outs: Seq<Seq<u8>>, parents: spec_fn(Seq<u8>) -> Seq<Seq<u8>>) -> bool {
    &&& ms.len() == outs.len() + 1
    &&& forall|k: int|
        #![trigger walk_next(ms[k])]
        0 <= k < outs.len() ==> walk_next(ms[k]).1 == Some(outs[k]) && ms[k + 1] == (WalkModel {
            pending: walk_next(ms[k]).0.pending + parents(outs[k]),
            count: walk_next(ms[k]).0.count + 1,
            ..walk_next(ms[k]).0
        })
}

proof fn lemma_reach_parent(parents: spec_fn(Seq<u8>) -> Seq<Seq<u8>>, h: Seq<u8>, x: Seq<u8>, p: Seq<u8>)
    requires
        reachable(parents, h, x),
        parents(x).contains(p),
    ensures
        reachable(parents, h, p),
{
    let path = choose|path: Seq<Seq<u8>>|
        #[trigger] parent_chain(parents, path) && path.len() >= 1 && path[0] == h && path.last() == x;
    let q = path.push(p);
    assert(parent_chain(parents, q)) by {
        assert forall|k: int| 1 <= k < q.len() implies parents(q[k - 1]).contains(#[trigger] q[k]) by {
            if k < path.len() {
                assert(q[k] == path[k] && q[k - 1] == path[k - 1]);
            }
        }
    }
    assert(q[0] == h && q.last() == p);
}

proof fn lemma_reach_self(parents: spec_fn(Seq<u8>) -> Seq<Seq<u8>>, h: Seq<u8>)
    ensures
        reachable(parents, h, h),
{
    let q = seq![h];
    assert(parent_chain(parents, q));
}

proof fn lemma_reach_chain(parents: spec_fn(Seq<u8>) -> Seq<Seq<u8>>, a: Seq<u8>, path: Seq<Seq<u8>>)
    requires
        reachable(parents, a, path[0]),
        path.len() >= 1,
        parent_chain(parents, path),
    ensures
        reachable(parents, a, path.last()),
    decreases path.len(),
{
    if path.len() > 1 {
        let init = path.drop_last();
        assert(parent_chain(parents, init)) by {
            assert forall|k: int| 1 <= k < init.len() implies parents(init[k - 1]).contains(#[trigger] init[k]) by {
                assert(init[k] == path[k] && init[k - 1] == path[k - 1]);
            }
        }
        lemma_reach_chain(parents, a, init);
        assert(parents(path[path.len() - 2]).contains(path[path.len() - 1]));
        lemma_reach_parent(parents, a, init.last(), path.last());
    }
}

/// What is reachable from something reachable is reachable.
proof fn lemma_reach_trans(parents: spec_fn(Seq<u8>) -> Seq<Seq<u8>>, a: Seq<u8>, b: Seq<u8>, c: Seq<u8>)
    requires
        reachable(parents, a, b),
        reachable(parents, b, c),
    ensures
        reachable(parents, a, c),
{
    let path = choose|path: Seq<Seq<u8>>|
        #[trigger] parent_chain(parents, path) && path.len() >= 1 && path[0] == b && path.last() == c;
    lemma_reach_chain(parents, a, path);
}

proof fn lemma_chain_inside(parents: spec_fn(Seq<u8>) -> Seq<Seq<u8>>, inside: spec_fn(Seq<u8>) -> bool, path: Seq<Seq<u8>>)
    requires
        path.len() >= 1,
        parent_chain(parents, path),
        inside(path[0]),
        forall|x: Seq<u8>, p: Seq<u8>| inside(x) && #[trigger] parents(x).contains(p) ==> inside(p),
    ensures
        inside(path.last()),
    decreases path.len(),
{
    if path.len() > 1 {
        let init = path.drop_last();
        assert(parent_chain(parents, init)) by {
            assert forall|k: int| 1 <= k < init.len() implies parents(init[k - 1]).contains(#[trigger] init[k]) by {
                assert(init[k] == path[k] && init[k - 1] == path[k - 1]);
            }
        }
        lemma_chain_inside(parents, inside, init);
        assert(parents(path[path.len() - 2]).contains(path[path.len() - 1]));
    }
}

/// A set that holds `h` and every parent of its members holds everything
/// reachable from `h`.
proof fn lemma_closed_holds_reachable(
    parents: spec_fn(Seq<u8>) -> Seq<Seq<u8>>,
    inside: spec_fn(Seq<u8>) -> bool,
    h: Seq<u8>,
    o: Seq<u8>,
)
    requires
        inside(h),
        forall|x: Seq<u8>, p: Seq<u8>| inside(x) && #[trigger] parents(x).contains(p) ==> inside(p),
        reachable(parents, h, o),
    ensures
        inside(o),
{
    let path = choose|path: Seq<Seq<u8>>|
        #[trigger] parent_chain(parents, path) && path.len() >= 1 && path[0] == h && path.last() == o;
    lemma_chain_inside(parents, inside, path);
}

/// One step of a walk under its limit: what it keeps queued was queued,
/// what was queued is still queued or seen, and it hands out a queued
/// commit, ends with the queue exhausted, or stops on a queued cached one.
proof fn lemma_next_sets(m: WalkModel)
    requires
        !m.done,
        m.count < m.max_commits,
    ensures
        walk_next(m).0.count == m.count,
        walk_next(m).0.max_commits == m.max_commits,
        walk_next(m).0.stop_at == m.stop_at,
        forall|x: Seq<u8>| walk_next(m).0.pending.contains(x) ==> m.pending.contains(x),
        forall|x: Seq<u8>| m.pending.contains(x) ==> walk_next(m).0.pending.contains(x) || walk_next(m).0.seen.contains(x),
        walk_next(m).1 matches Some(o) ==> {
            &&& m.pending.contains(o)
            &&& walk_next(m).0.seen == m.seen.insert(o)
            &&& !walk_next(m).0.done
            &&& walk_next(m).0.splice == m.splice
        },
        walk_next(m).1 is None ==> {
            ||| walk_next(m).0.splice == m.splice && walk_next(m).0.seen == m.seen
                && walk_next(m).0.pending.len() == 0
            ||| walk_next(m).0.splice matches Some(s) && m.stop_at matches Some(st) && st.contains(s)
                && m.pending.contains(s) && walk_next(m).0.seen == m.seen.insert(s)
        },
    decreases m.pending.len(),
{
    if m.pending.len() > 0 {
        let o = m.pending[0];
        let rest = m.pending.drop_first();
        assert forall|x: Seq<u8>| rest.contains(x) implies m.pending.contains(x) by {
            let i = choose|i: int| 0 <= i < rest.len() && rest[i] == x;
            assert(m.pending[i + 1] == x);
        }
        assert forall|x: Seq<u8>| m.pending.contains(x) && x != o implies rest.contains(x) by {
            let i = choose|i: int| 0 <= i < m.pending.len() && m.pending[i] == x;
            assert(i != 0);
            assert(rest[i - 1] == x);
        }
        assert(m.pending.contains(o)) by {
            assert(m.pending[0] == o);
        }
        if m.seen.contains(o) {
            let m1 = WalkModel { pending: rest, ..m };
            lemma_next_sets(m1);
            assert(walk_next(m) == walk_next(m1));
            let m2 = walk_next(m1).0;
            assert(m.seen.subset_of(m2.seen));
            assert forall|x: Seq<u8>| m.pending.contains(x) implies m2.pending.contains(x) || m2.seen.contains(x) by {
                if x != o {
                    assert(rest.contains(x));
                }
            }
            assert forall|x: Seq<u8>| m2.pending.contains(x) implies m.pending.contains(x) by {
                assert(rest.contains(x));
            }
        } else {
            let m2 = walk_next(m).0;
            assert(m2.pending == rest);
            assert(m2.seen.contains(o));
            assert forall|x: Seq<u8>| m.pending.contains(x) implies m2.pending.contains(x) || m2.seen.contains(x) by {
                if x != o {
                    assert(rest.contains(x));
                }
            }
        }
    }
}

/// Facts kept by every step of a walk from `head`.
proof fn lemma_run_keeps(
    ms: Seq<WalkModel>,
    outs: Seq<Seq<u8>>,
    parents: spec_fn(Seq<u8>) -> Seq<Seq<u8>>,
    head: Seq<u8>,
    k: int,
)
    requires
        walk_run(ms, outs, parents),
        ms[0] == walk_start(head, ms[0].max_commits, ms[0].stop_at),
        0 <= k <= outs.len(),
    ensures
        ms[k].count == k,
        ms[k].count <= ms[k].max_commits,
        ms[k].max_commits == ms[0].max_commits,
        ms[k].stop_at == ms[0].stop_at,
        ms[k].splice is None,
        !ms[k].done,
        forall|x: Seq<u8>| #[trigger] ms[k].seen.contains(x) <==> outs.take(k).contains(x),
        forall|x: Seq<u8>| #[trigger] ms[k].pending.contains(x) ==> reachable(parents, head, x),
        forall|x: Seq<u8>| #[trigger] ms[k].seen.contains(x) ==> reachable(parents, head, x),
        forall|x: Seq<u8>, p: Seq<u8>|
            ms[k].seen.contains(x) && #[trigger] parents(x).contains(p) ==> ms[k].seen.contains(p)
                || ms[k].pending.contains(p),
        ms[k].seen.contains(head) || ms[k].pending.contains(head),
    decreases k,
{
    if k == 0 {
        assert(outs.take(0) =~= Seq::<Seq<u8>>::empty());
        assert forall|x: Seq<u8>| #[trigger] ms[0].pending.contains(x) implies reachable(parents, head, x) by {
            let i = choose|i: int| 0 <= i < ms[0].pending.len() && ms[0].pending[i] == x;
            lemma_reach_self(parents, head);
        }
        assert(ms[0].pending[0] == head);
    } else {
        let j = k - 1;
        lemma_run_keeps(ms, outs, parents, head, j);
        let m = ms[j];
        let m2 = walk_next(m).0;
        let o = outs[j];
        assert(walk_next(ms[j]).1 == Some(outs[j]));
        lemma_walk_step(m);
        lemma_next_sets(m);
        let n = ms[k];
        assert(n == WalkModel { pending: m2.pending + parents(o), count: m2.count + 1, ..m2 });
        assert(outs.take(k) =~= outs.take(j).push(o));
        assert forall|x: Seq<u8>| n.pending.contains(x) implies m2.pending.contains(x) || parents(o).contains(x) by {
            let i = choose|i: int| 0 <= i < n.pending.len() && n.pending[i] == x;
            if i < m2.pending.len() {
                assert(m2.pending[i] == x);
            } else {
                let po = parents(o);
                assert(po[i - m2.pending.len()] == x);
            }
        }
        assert forall|x: Seq<u8>| m2.pending.contains(x) implies n.pending.contains(x) by {
            let i = choose|i: int| 0 <= i < m2.pending.len() && m2.pending[i] == x;
            assert(n.pending[i] == x);
        }
        let po = parents(o);
        assert forall|x: Seq<u8>| po.contains(x) implies n.pending.contains(x) by {
            let i = choose|i: int| 0 <= i < po.len() && po[i] == x;
            assert(n.pending[m2.pending.len() + i] == x);
        }
        assert(reachable(parents, head, o));
        assert forall|x: Seq<u8>| #[trigger] n.seen.contains(x) <==> outs.take(k).contains(x) by {
            if outs.take(k).contains(x) {
                let i = choose|i: int| 0 <= i < outs.take(k).len() && outs.take(k)[i] == x;
                if i < j {
                    assert(outs.take(j)[i] == x);
                }
            }
            if outs.take(j).contains(x) {
                let i = choose|i: int| 0 <= i < outs.take(j).len() && outs.take(j)[i] == x;
                assert(outs.take(k)[i] == x);
            }
            if x == o {
                assert(outs.take(k)[j] == o);
            }
        }
        assert forall|x: Seq<u8>| #[trigger] n.pending.contains(x) implies reachable(parents, head, x) by {
            if parents(o).contains(x) {
                lemma_reach_parent(parents, head, o, x);
            } else {
                assert(m2.pending.contains(x));
                assert(m.pending.contains(x));
                assert(ms[j].pending.contains(x));
            }
        }
        assert forall|x: Seq<u8>, p: Seq<u8>|
            n.seen.contains(x) && #[trigger] parents(x).contains(p) implies n.seen.contains(p) || n.pending.contains(p) by {
            if x != o {
                assert(m.seen.contains(x));
                assert(m.seen.contains(p) || m.pending.contains(p));
            }
        }
    }
}

/// A whole walk from `head` with no cached commits, the caller reporting
/// `parents` of each commit read, reads only commits reachable from `head`,
/// each once, and ends either at the limit or having read every one of
/// them: it reads min(limit, reachable) commits.
pub proof fn lemma_walk_reads_reachable(
    ms: Seq<WalkModel>,
    outs: Seq<Seq<u8>>,
    parents: spec_fn(Seq<u8>) -> Seq<Seq<u8>>,
    head: Seq<u8>,
    max_commits: nat,
)
    requires
        walk_run(ms, outs, parents),
        ms[0] == walk_start(head, max_commits, None),
        walk_next(ms.last()).1 is None,
    ensures
        outs.no_duplicates(),
        outs.len() <= max_commits,
        forall|x: Seq<u8>| #[trigger] outs.contains(x) ==> reachable(parents, head, x),
        outs.len() < max_commits ==> forall|x: Seq<u8>| #[trigger] reachable(parents, head, x) ==> outs.contains(x),
{
    let n = outs.len() as int;
    lemma_run_keeps(ms, outs, parents, head, n);
    assert(outs.take(n) =~= outs);
    assert forall|k: int| 0 <= k < outs.len() implies #[trigger] walk_next(ms[k]).1 == Some(outs[k]) by {
        assert(walk_next(ms[k]).1 == Some(outs[k]));
    }
    assert forall|k: int| 0 <= k < outs.len() implies (#[trigger] walk_next(ms[k]).0).seen.subset_of(ms[k + 1].seen) by {
        assert(walk_next(ms[k]).1 == Some(outs[k]));
    }
    lemma_walk_hands_out_distinct(ms, outs);
    let m = ms[n];
    assert(ms.last() == m);
    assert forall|x: Seq<u8>| #[trigger] outs.contains(x) implies reachable(parents, head, x) by {
        assert(ms[n].seen.contains(x));
    }
    if outs.len() < max_commits {
        lemma_next_sets(m);
        assert forall|x: Seq<u8>| m.pending.contains(x) implies m.seen.contains(x) by {}
        let inside = |x: Seq<u8>| outs.contains(x);
        assert forall|x: Seq<u8>, p: Seq<u8>| inside(x) && #[trigger] parents(x).contains(p) implies inside(p) by {
            assert(m.seen.contains(x));
        }
        assert(inside(head)) by {
            assert(m.seen.contains(head));
        }
        assert forall|x: Seq<u8>| #[trigger] reachable(parents, head, x) implies outs.contains(x) by {
            lemma_closed_holds_reachable(parents, inside, head, x);
        }
    }
}

/// An incremental walk that stops on a cached commit `s` reads exactly what
/// the cache lacks, when the cache holds the commits reachable from `s` and
/// the walk, as it stopped, dropped only commits that were cached or already
/// read: what it read together with the cache are the commits reachable from
/// `head`.
pub proof fn lemma_delta_walk_completes_cache(
    ms: Seq<WalkModel>,
    outs: Seq<Seq<u8>>,
    parents: spec_fn(Seq<u8>) -> Seq<Seq<u8>>,
    head: Seq<u8>,
    max_commits: nat,
    cached: Set<Seq<u8>>,
    s: Seq<u8>,
)
    requires
        walk_run(ms, outs, parents),
        ms[0] == walk_start(head, max_commits, Some(cached)),
        walk_next(ms.last()).1 is None,
        walk_next(ms.last()).0.splice == Some(s),
        forall|x: Seq<u8>| #[trigger] cached.contains(x) <==> reachable(parents, s, x),
        forall|x: Seq<u8>|
            #[trigger] walk_next(ms.last()).0.pending.contains(x) ==> cached.contains(x) || walk_next(
                ms.last(),
            ).0.seen.contains(x),
    ensures
        forall|x: Seq<u8>| #[trigger] reachable(parents, head, x) <==> (outs.contains(x) || cached.contains(x)),
{
    let n = outs.len() as int;
    lemma_run_keeps(ms, outs, parents, head, n);
    assert(outs.take(n) =~= outs);
    let m = ms[n];
    assert(ms.last() == m);
    let m2 = walk_next(m).0;
    assert(m.count < m.max_commits);
    lemma_next_sets(m);
    assert(m.pending.contains(s) && m2.seen == m.seen.insert(s));
    assert(reachable(parents, head, s));
    lemma_reach_self(parents, s);
    let inside = |x: Seq<u8>| outs.contains(x) || cached.contains(x);
    assert forall|x: Seq<u8>| m.pending.contains(x) implies inside(x) by {
        if m2.pending.contains(x) {
            assert(cached.contains(x) || m2.seen.contains(x));
        }
        if m2.seen.contains(x) && x != s {
            assert(m.seen.contains(x));
        }
    }
    assert forall|x: Seq<u8>, p: Seq<u8>| inside(x) && #[trigger] parents(x).contains(p) implies inside(p) by {
        if outs.contains(x) {
            assert(m.seen.contains(x));
            assert(m.seen.contains(p) || m.pending.contains(p));
        } else {
            assert(reachable(parents, s, x));
            lemma_reach_parent(parents, s, x, p);
        }
    }
    assert(inside(head)) by {
        if !m.seen.contains(head) {
            assert(m.pending.contains(head));
        }
    }
    assert forall|x: Seq<u8>| #[trigger] reachable(parents, head, x) <==> (outs.contains(x) || cached.contains(x)) by {
        if reachable(parents, head, x) {
            lemma_closed_holds_reachable(parents, inside, head, x);
        }
        if outs.contains(x) {
            assert(m.seen.contains(x));
        }
        if cached.contains(x) {
            lemma_reach_trans(parents, head, s, x);
        }
    }
}

/// Breadth-first walk from HEAD over a DAG: each commit at most once, at
/// most `max_commits` commits, stopping at the first commit of the splice
/// set when one is given.
pub struct CommitWalk {
    queue: Vec<Oid>,
    front: usize,
    seen: OidSet,
    stop_at: Option<OidSet>,
    count: u64,
    max_commits: u64,
    splice: Option<Oid>,
    done: bool,
}

impl CommitWalk {
    pub closed spec fn model(&self) -> WalkModel {
        WalkModel {
            pending: self.queue@.subrange(self.front as int, self.queue@.len() as int).map_values(
                |o: Oid| o@,
            ),
            seen: Set::new(|o: Seq<u8>| self.seen.has(o)),
            count: self.count as nat,
            max_commits: self.max_commits as nat,
            stop_at: match self.stop_at {
                Some(s) => Some(Set::new(|o: Seq<u8>| s.has(o))),
                None => None,
            },
            splice: match self.splice {
                Some(o) => Some(o@),
                None => None,
            },
            done: self.done,
        }
    }

    pub closed spec fn wf(&self) -> bool {
        &&& self.front <= self.queue@.len()
        &&& self.count <= self.max_commits
    }

    /// A walk from `head`; `stop_at` holds the cached commits, if any.
    pub fn new(head: Oid, max_commits: u64, stop_at: Option<Vec<Oid>>) -> (w: Self)
        ensures
            w.wf(),
            w.model().pending == seq![head@],
            w.model().seen == Set::<Seq<u8>>::empty(),
            w.model().count == 0,
            w.model().max_commits == max_commits,
            w.model().splice is None,
            !w.model().done,
            match stop_at {
                None => w.model().stop_at is None,
                Some(v) => w.model().stop_at == Some(
                    Set::new(|x: Seq<u8>| exists|k: int| 0 <= k < v@.len() && (#[trigger] v@[k])@ == x),
                ),
            },
    {
        let mut queue: Vec<Oid> = Vec::new();
        queue.push(head);
        let ghost stop_in = stop_at;
        let stop = match stop_at {
            None => None,
            Some(v) => Some(oid_set_of(&v)),
        };
        let w = CommitWalk {
            queue,
            front: 0,
            seen: OidSet::new(),
            stop_at: stop,
            count: 0,
            max_commits,
            splice: None,
            done: false,
        };
        assert(w.model().pending =~= seq![head@]);
        assert(w.model().seen =~= Set::<Seq<u8>>::empty());
        proof {
            if let Some(v) = stop_in {
                let s = w.stop_at->0;
                assert(Set::new(|o: Seq<u8>| s.has(o)) =~= Set::new(
                    |x: Seq<u8>| exists|k: int| 0 <= k < v@.len() && (#[trigger] v@[k])@ == x,
                ));
            }
        }
        w
    }

    /// The next commit to read, or `Done`.
    pub fn next(&mut self) -> (step: WalkStep)
        requires
            old(self).wf(),
        ensures
            final(self).wf(),
            (final(self).model(), match step {
                WalkStep::Visit(o) => Some(o@),
                WalkStep::Done => None,
            }) == walk_next(old(self).model()),
        decreases old(self).model().pending.len(),
    {
        if self.done || self.front >= self.queue.len() {
            self.done = true;
            return WalkStep::Done;
        }
        let o = self.queue[self.front];
        self.front = self.front + 1;
        proof {
            assert(self.model().pending =~= old(self).model().pending.drop_first());
        }
        if self.count >= self.max_commits {
            self.done = true;
            return WalkStep::Done;
        }
        if self.seen.contains(&o) {
            return self.next();
        }
        self.seen.insert(o);
        proof {
            assert(self.model().seen =~= old(self).model().seen.insert(o@));
        }
        let stop = match &self.stop_at {
            Some(s) => s.contains(&o),
            None => false,
        };
        if stop {
            self.splice = Some(o);
            self.done = true;
            return WalkStep::Done;
        }
        WalkStep::Visit(o)
    }

    /// Reports the parents of the commit just visited.
    pub fn visited(&mut self, parents: Vec<Oid>)
        requires
            old(self).wf(),
            !old(self).model().done,
            old(self).model().count < old(self).model().max_commits,
        ensures
            final(self).wf(),
            final(self).model() == (WalkModel {
                pending: old(self).model().pending + parents@.map_values(|o: Oid| o@),
                count: old(self).model().count + 1,
                ..old(self).model()
            }),
    {
        let ghost old_queue = self.queue@;
        let ghost ps = parents@;
        let mut parents = parents;
        self.queue.append(&mut parents);
        self.count = self.count + 1;
        assert(self.model().pending =~= old(self).model().pending + ps.map_values(|o: Oid| o@));
    }

    /// The cached commit the walk stopped on, if any.
    pub fn splice(&self) -> (r: Option<Oid>)
        ensures
            match r {
                Some(o) => self.model().splice == Some(o@),
                None => self.model().splice is None,
            },
    {
        self.splice
    }
}


// ------------------------------------------------------------------
// Interning what the walk read
// ------------------------------------------------------------------

/// Metadata of one walked commit, before interning.
#[derive(Debug, Clone)]
pub struct RawCommit {
    pub oid: Oid,
    pub time: i64,
    pub name: String,
    pub email: String,
    pub n_parents: u8,
}

/// A file stat before interning: (path, adds, dels, binary).
pub type RawFileStat = (String, u32, u32, bool);

/// Author keys of the walked commits, in walk order.
pub open spec fn raw_author_keys(raws: Seq<RawCommit>) -> Seq<(Seq<char>, Seq<char>)> {
    raws.map_values(|r: RawCommit| (r.name@, r.email@))
}

/// Paths of one commit's raw stats.
pub open spec fn raw_file_keys(files: Seq<RawFileStat>) -> Seq<Seq<char>> {
    files.map_values(|f: RawFileStat| f.0@)
}

/// Paths of all raw stats, commit after commit.
pub open spec fn raw_path_keys(lists: Seq<Vec<RawFileStat>>) -> Seq<Seq<char>>
    decreases lists.len(),
{
    if lists.len() == 0 {
        Seq::empty()
    } else {
        raw_path_keys(lists.drop_last()) + raw_file_keys(lists.last()@)
    }
}

/// `r` is the raw commit with its author and paths replaced by their
/// positions in the tables.
pub open spec fn interned(
    r: CommitRecord,
    raw: RawCommit,
    files: Seq<RawFileStat>,
    atbl: Seq<(Seq<char>, Seq<char>)>,
    ptbl: Seq<Seq<char>>,
) -> bool {
    &&& r.oid == raw.oid
    &&& r.time == raw.time
    &&& r.n_parents == raw.n_parents
    &&& r.author.0 == last_index_of(atbl, (raw.name@, raw.email@))
    &&& r.files@.len() == files.len()
    &&& forall|j: int|
        0 <= j < files.len() ==> {
            &&& (#[trigger] r.files@[j]).file.0 == last_index_of(ptbl, files[j].0@)
            &&& r.files@[j].adds == files[j].1
            &&& r.files@[j].dels == files[j].2
            &&& r.files@[j].binary == files[j].3
        }
}

proof fn lemma_interned_push_author(
    r: CommitRecord,
    raw: RawCommit,
    files: Seq<RawFileStat>,
    atbl: Seq<(Seq<char>, Seq<char>)>,
    y: (Seq<char>, Seq<char>),
    ptbl: Seq<Seq<char>>,
)
    requires
        interned(r, raw, files, atbl, ptbl),
        !atbl.contains(y),
    ensures
        interned(r, raw, files, atbl.push(y), ptbl),
{
    lemma_last_index_of_found(atbl, (raw.name@, raw.email@));
    lemma_last_index_of_push(atbl, y, (raw.name@, raw.email@));
}

proof fn lemma_interned_push_path(
    r: CommitRecord,
    raw: RawCommit,
    files: Seq<RawFileStat>,
    atbl: Seq<(Seq<char>, Seq<char>)>,
    ptbl: Seq<Seq<char>>,
    y: Seq<char>,
)
    requires
        interned(r, raw, files, atbl, ptbl),
        !ptbl.contains(y),
    ensures
        interned(r, raw, files, atbl, ptbl.push(y)),
{
    assert forall|j: int| 0 <= j < files.len() implies (#[trigger] r.files@[j]).file.0 == last_index_of(
        ptbl.push(y),
        files[j].0@,
    ) by {
        lemma_last_index_of_found(ptbl, files[j].0@);
        lemma_last_index_of_push(ptbl, y, files[j].0@);
    }
}

proof fn lemma_raw_path_keys_step(lists: Seq<Vec<RawFileStat>>, i: int)
    requires
        0 <= i < lists.len(),
    ensures
        raw_path_keys(lists.take(i + 1)) == raw_path_keys(lists.take(i)) + raw_file_keys(lists[i]@),
{
    assert(lists.take(i + 1).drop_last() =~= lists.take(i));
}

/// A key is in a table without duplicates exactly at its position.
proof fn lemma_unique_index<K>(s: Seq<K>, i: int)
    requires
        s.no_duplicates(),
        0 <= i < s.len(),
    ensures
        last_index_of(s, s[i]) == i,
{
    lemma_last_index_of_found(s, s[i]);
}

/// Interns the walked commits in walk order: authors and paths get dense
/// ids in order of first sight.
pub fn intern_scan(raws: Vec<RawCommit>, file_lists: Vec<Vec<RawFileStat>>, splice: Option<Oid>) -> (out: ScanOutput)
    requires
        raws@.len() == file_lists@.len(),
        new_keys(Seq::empty(), raw_author_keys(raws@)).len() <= u32::MAX + 1,
        new_keys(Seq::empty(), raw_path_keys(file_lists@)).len() <= u32::MAX + 1,
    ensures
        author_keys(out.authors@) == new_keys(Seq::empty(), raw_author_keys(raws@)),
        path_views(out.paths@) == new_keys(Seq::empty(), raw_path_keys(file_lists@)),
        out.records@.len() == raws@.len(),
        forall|i: int|
            0 <= i < raws@.len() ==> #[trigger] interned(
                out.records@[i],
                raws@[i],
                file_lists@[i]@,
                author_keys(out.authors@),
                path_views(out.paths@),
            ),
        out.splice == splice,
{
    let ghost e_a = Seq::<(Seq<char>, Seq<char>)>::empty();
    let ghost e_p = Seq::<Seq<char>>::empty();
    let ghost rak = raw_author_keys(raws@);
    let ghost rpk = raw_path_keys(file_lists@);
    let mut authors = AuthorInterner::new();
    let mut paths = PathInterner::new();
    let mut records: Vec<CommitRecord> = Vec::new();
    let mut i: usize = 0;
    proof {
        assert(rak.take(0) =~= e_a);
        assert(file_lists@.take(0) =~= Seq::<Vec<RawFileStat>>::empty());
    }
    while i < raws.len()
        invariant
            raws@.len() == file_lists@.len(),
            rak == raw_author_keys(raws@),
            rpk == raw_path_keys(file_lists@),
            e_a == Seq::<(Seq<char>, Seq<char>)>::empty(),
            e_p == Seq::<Seq<char>>::empty(),
            new_keys(e_a, rak).len() <= u32::MAX + 1,
            new_keys(e_p, rpk).len() <= u32::MAX + 1,
            i <= raws@.len(),
            authors.wf(),
            paths.wf(),
            authors.keys() == new_keys(e_a, rak.take(i as int)),
            paths.paths() == new_keys(e_p, raw_path_keys(file_lists@.take(i as int))),
            authors.keys().no_duplicates(),
            paths.paths().no_duplicates(),
            records@.len() == i,
            forall|q: int|
                0 <= q < i ==> #[trigger] interned(
                    records@[q],
                    raws@[q],
                    file_lists@[q]@,
                    authors.keys(),
                    paths.paths(),
                ),
        decreases raws@.len() - i,
    {
        let raw = &raws[i];
        let ghost key = (raw.name@, raw.email@);
        let ghost atbl0 = authors.keys();
        proof {
            assert(rak.take(i + 1) =~= rak.take(i as int).push(key));
            assert(e_a + atbl0 =~= atbl0);
            lemma_new_keys_push(e_a, rak.take(i as int), key);
            crate::engine::model::lemma_new_keys_prefix_len(e_a, rak, i + 1);
        }
        let author = authors.intern(raw.name.clone(), raw.email.clone());
        proof {
            lemma_unique_index(authors.keys(), author.0 as int);
            if !atbl0.contains(key) {
                assert forall|q: int| 0 <= q < i implies #[trigger] interned(
                    records@[q],
                    raws@[q],
                    file_lists@[q]@,
                    authors.keys(),
                    paths.paths(),
                ) by {
                    lemma_interned_push_author(records@[q], raws@[q], file_lists@[q]@, atbl0, key, paths.paths());
                }
            }
        }
        let list = &file_lists[i];
        let ghost fk = raw_file_keys(list@);
        let mut files: Vec<FileStat> = Vec::new();
        let mut j: usize = 0;
        while j < list.len()
            invariant
                raws@.len() == file_lists@.len(),
                rpk == raw_path_keys(file_lists@),
                e_p == Seq::<Seq<char>>::empty(),
                new_keys(e_p, rpk).len() <= u32::MAX + 1,
                i < raws@.len(),
                *raw == raws@[i as int],
                *list == file_lists@[i as int],
                fk == raw_file_keys(list@),
                j <= list@.len(),
                paths.wf(),
                paths.paths().no_duplicates(),
                paths.paths() == new_keys(e_p, raw_path_keys(file_lists@.take(i as int)) + fk.take(j as int)),
                author.0 == last_index_of(authors.keys(), key),
                key == (raw.name@, raw.email@),
                records@.len() == i,
                forall|q: int|
                    0 <= q < i ==> #[trigger] interned(
                        records@[q],
                        raws@[q],
                        file_lists@[q]@,
                        authors.keys(),
                        paths.paths(),
                    ),
                files@.len() == j,
                forall|q: int|
                    0 <= q < j ==> {
                        &&& (#[trigger] files@[q]).file.0 == last_index_of(paths.paths(), list@[q].0@)
                        &&& files@[q].adds == list@[q].1
                        &&& files@[q].dels == list@[q].2
                        &&& files@[q].binary == list@[q].3
                    },
            decreases list@.len() - j,
        {
            let (p, adds, dels, binary) = &list[j];
            let ghost pkey = p@;
            let ghost ptbl0 = paths.paths();
            let ghost prefix = raw_path_keys(file_lists@.take(i as int)) + fk.take(j as int);
            proof {
                assert(pkey == fk[j as int]);
                assert(raw_path_keys(file_lists@.take(i as int)) + fk.take(j + 1) =~= prefix.push(pkey));
                assert(e_p + ptbl0 =~= ptbl0);
                lemma_new_keys_push(e_p, prefix, pkey);
                // the keys so far are a prefix of all the keys
                lemma_raw_path_keys_step(file_lists@, i as int);
                lemma_raw_path_keys_prefix(file_lists@, i + 1);
                let all_i1 = raw_path_keys(file_lists@.take(i + 1));
                assert(prefix.push(pkey) =~= all_i1.take(prefix.len() + 1int));
                assert(prefix.push(pkey) =~= rpk.take(prefix.len() + 1int));
                crate::engine::model::lemma_new_keys_prefix_len(e_p, rpk, prefix.len() + 1int);
            }
            let file = paths.intern(p.as_str());
            proof {
                lemma_unique_index(paths.paths(), file.0 as int);
                if !ptbl0.contains(pkey) {
                    assert forall|q: int| 0 <= q < i implies #[trigger] interned(
                        records@[q],
                        raws@[q],
                        file_lists@[q]@,
                        authors.keys(),
                        paths.paths(),
                    ) by {
                        lemma_interned_push_path(records@[q], raws@[q], file_lists@[q]@, authors.keys(), ptbl0, pkey);
                    }
                    assert forall|q: int| 0 <= q < j implies (#[trigger] files@[q]).file.0 == last_index_of(
                        paths.paths(),
                        list@[q].0@,
                    ) by {
                        lemma_last_index_of_found(ptbl0, list@[q].0@);
                        lemma_last_index_of_push(ptbl0, pkey, list@[q].0@);
                    }
                }
            }
            files.push(FileStat { file: file, adds: *adds, dels: *dels, binary: *binary });
            j = j + 1;
        }
        proof {
            assert(fk.take(j as int) =~= fk);
            lemma_raw_path_keys_step(file_lists@, i as int);
        }
        records.push(CommitRecord {
            oid: raw.oid,
            time: raw.time,
            author: author,
            n_parents: raw.n_parents,
            files,
        });
        proof {
            assert(interned(records@[i as int], raws@[i as int], file_lists@[i as int]@, authors.keys(), paths.paths()));
            assert forall|q: int| 0 <= q < i + 1 implies #[trigger] interned(
                records@[q],
                raws@[q],
                file_lists@[q]@,
                authors.keys(),
                paths.paths(),
            ) by {}
        }
        i = i + 1;
    }
    proof {
        assert(rak.take(i as int) =~= rak);
        assert(file_lists@.take(i as int) =~= file_lists@);
    }
    let ghost ak = authors.keys();
    let ghost pk = paths.paths();
    ScanOutput { records, authors: authors.into_list(), paths: paths.into_list(), splice }
}

proof fn lemma_raw_path_keys_prefix(lists: Seq<Vec<RawFileStat>>, i: int)
    requires
        0 <= i <= lists.len(),
    ensures
        raw_path_keys(lists.take(i)).len() <= raw_path_keys(lists).len(),
        raw_path_keys(lists.take(i)) =~= raw_path_keys(lists).take(raw_path_keys(lists.take(i)).len() as int),
    decreases lists.len() - i,
{
    if i < lists.len() {
        lemma_raw_path_keys_step(lists, i);
        lemma_raw_path_keys_prefix(lists, i + 1);
        let a = raw_path_keys(lists.take(i));
        let b = raw_path_keys(lists.take(i + 1));
        let c = raw_path_keys(lists);
        assert(a =~= b.take(a.len() as int));
        assert(a =~= c.take(a.len() as int));
    } else {
        assert(lists.take(i) =~= lists);
    }
}

proof fn lemma_new_keys_unique<K>(known: Seq<K>, keys: Seq<K>)
    ensures
        new_keys(known, keys).no_duplicates(),
        forall|j: int| 0 <= j < keys.len() ==> (known + new_keys(known, keys)).contains(#[trigger] keys[j]),
    decreases keys.len(),
{
    if keys.len() > 0 {
        let prev = new_keys(known, keys.drop_last());
        lemma_new_keys_unique(known, keys.drop_last());
        let k = keys.last();
        let cur = new_keys(known, keys);
        if !(known + prev).contains(k) {
            assert(cur == prev.push(k));
            assert forall|a: int, b: int| 0 <= a < b < cur.len() implies cur[a] != cur[b] by {
                if b == cur.len() - 1 {
                    assert((known + prev)[known.len() + a] == prev[a]);
                }
            }
        }
        assert forall|j: int| 0 <= j < keys.len() implies (known + cur).contains(#[trigger] keys[j]) by {
            if j < keys.len() - 1 {
                assert(keys.drop_last()[j] == keys[j]);
                assert((known + prev).contains(keys[j]));
                let q = choose|q: int| 0 <= q < (known + prev).len() && (known + prev)[q] == keys[j];
                assert((known + cur)[q] == keys[j]);
            } else if (known + prev).contains(k) {
                let q = choose|q: int| 0 <= q < (known + prev).len() && (known + prev)[q] == k;
                assert((known + cur)[q] == k);
            } else {
                assert((known + cur)[known.len() + prev.len() as int] == k);
            }
        }
    }
}

proof fn lemma_raw_path_in_keys(lists: Seq<Vec<RawFileStat>>, i: int, j: int)
    requires
        0 <= i < lists.len(),
        0 <= j < lists[i]@.len(),
    ensures
        raw_path_keys(lists).contains(lists[i]@[j].0@),
{
    lemma_raw_path_keys_step(lists, i);
    lemma_raw_path_keys_prefix(lists, i + 1);
    let a = raw_path_keys(lists.take(i));
    let b = raw_path_keys(lists.take(i + 1));
    assert(b[a.len() + j] == lists[i]@[j].0@);
    assert(raw_path_keys(lists)[a.len() + j] == lists[i]@[j].0@);
}

/// What an interned scan holds: author and path tables without repeats,
/// and every author id and file id of a record naming an entry of them.
pub proof fn lemma_scan_tables(raws: Seq<RawCommit>, lists: Seq<Vec<RawFileStat>>, out: ScanOutput)
    requires
        lists.len() == raws.len(),
        author_keys(out.authors@) == new_keys(Seq::empty(), raw_author_keys(raws)),
        path_views(out.paths@) == new_keys(Seq::empty(), raw_path_keys(lists)),
        out.records@.len() == raws.len(),
        forall|i: int|
            0 <= i < raws.len() ==> #[trigger] interned(
                out.records@[i],
                raws[i],
                lists[i]@,
                author_keys(out.authors@),
                path_views(out.paths@),
            ),
    ensures
        author_keys(out.authors@).no_duplicates(),
        path_views(out.paths@).no_duplicates(),
        forall|i: int| 0 <= i < raws.len() ==> (#[trigger] out.records@[i]).author.0 < out.authors@.len(),
        forall|i: int, j: int|
            0 <= i < raws.len() && 0 <= j < out.records@[i].files@.len() ==> (#[trigger] out.records@[i].files@[j]).file.0
                < out.paths@.len(),
{
    let e_a = Seq::<(Seq<char>, Seq<char>)>::empty();
    let e_p = Seq::<Seq<char>>::empty();
    let rak = raw_author_keys(raws);
    let rpk = raw_path_keys(lists);
    let atbl = author_keys(out.authors@);
    let ptbl = path_views(out.paths@);
    lemma_new_keys_unique(e_a, rak);
    lemma_new_keys_unique(e_p, rpk);
    assert(e_a + atbl =~= atbl);
    assert(e_p + ptbl =~= ptbl);
    assert(atbl.len() == out.authors@.len());
    assert(ptbl.len() == out.paths@.len());
    assert forall|i: int| 0 <= i < raws.len() implies (#[trigger] out.records@[i]).author.0 < out.authors@.len() by {
        assert(interned(out.records@[i], raws[i], lists[i]@, atbl, ptbl));
        assert(rak[i] == (raws[i].name@, raws[i].email@));
        assert((e_a + atbl).contains(rak[i]));
        lemma_last_index_of_found(atbl, rak[i]);
    }
    assert forall|i: int, j: int|
        0 <= i < raws.len() && 0 <= j < out.records@[i].files@.len() implies (#[trigger] out.records@[i].files@[j]).file.0
            < out.paths@.len() by {
        assert(interned(out.records@[i], raws[i], lists[i]@, atbl, ptbl));
        let key = lists[i]@[j].0@;
        lemma_raw_path_in_keys(lists, i, j);
        let q = choose|q: int| 0 <= q < rpk.len() && rpk[q] == key;
        assert((e_p + ptbl).contains(rpk[q]));
        lemma_last_index_of_found(ptbl, key);
    }
}

/// What a whole scan holds, put together: when the walk read distinct
/// commits and each commit's stats are those of its tree changes (none for
/// a merge), the interned history has distinct ids, tables without
/// repeats, author and file ids inside the tables, no stats on merges and
/// no lines on binary stats.
pub proof fn lemma_scan_well_formed(
    raws: Seq<RawCommit>,
    lists: Seq<Vec<RawFileStat>>,
    changes: Seq<Seq<TreeChange>>,
    out: ScanOutput,
)
    requires
        lists.len() == raws.len(),
        changes.len() == raws.len(),
        raws.map_values(|r: RawCommit| r.oid@).no_duplicates(),
        forall|i: int|
            0 <= i < raws.len() ==> (raws[i].n_parents > 1 ==> (#[trigger] lists[i])@.len() == 0) && (raws[i].n_parents
                <= 1 ==> lists[i]@.map_values(|s: RawFileStat| stat_view(s)) == spec_change_stats(changes[i])),
        author_keys(out.authors@) == new_keys(Seq::empty(), raw_author_keys(raws)),
        path_views(out.paths@) == new_keys(Seq::empty(), raw_path_keys(lists)),
        out.records@.len() == raws.len(),
        forall|i: int|
            0 <= i < raws.len() ==> #[trigger] interned(
                out.records@[i],
                raws[i],
                lists[i]@,
                author_keys(out.authors@),
                path_views(out.paths@),
            ),
    ensures
        out.records@.map_values(|r: CommitRecord| r.oid@).no_duplicates(),
        author_keys(out.authors@).no_duplicates(),
        path_views(out.paths@).no_duplicates(),
        forall|i: int| 0 <= i < raws.len() ==> (#[trigger] out.records@[i]).author.0 < out.authors@.len(),
        forall|i: int, j: int|
            0 <= i < raws.len() && 0 <= j < out.records@[i].files@.len() ==> (#[trigger] out.records@[i].files@[j]).file.0
                < out.paths@.len(),
        forall|i: int| 0 <= i < raws.len() && (#[trigger] out.records@[i]).n_parents > 1 ==> out.records@[i].files@.len() == 0,
        forall|i: int, j: int|
            0 <= i < raws.len() && 0 <= j < out.records@[i].files@.len() && (#[trigger] out.records@[i].files@[j]).binary
                ==> out.records@[i].files@[j].adds == 0 && out.records@[i].files@[j].dels == 0,
{
    lemma_scan_tables(raws, lists, out);
    let atbl = author_keys(out.authors@);
    let ptbl = path_views(out.paths@);
    let ro = raws.map_values(|r: RawCommit| r.oid@);
    let oo = out.records@.map_values(|r: CommitRecord| r.oid@);
    assert forall|a: int, b: int| 0 <= a < oo.len() && 0 <= b < oo.len() && a != b implies oo[a] != oo[b] by {
        assert(interned(out.records@[a], raws[a], lists[a]@, atbl, ptbl));
        assert(interned(out.records@[b], raws[b], lists[b]@, atbl, ptbl));
        assert(ro[a] != ro[b]);
    }
    assert forall|i: int| 0 <= i < raws.len() && (#[trigger] out.records@[i]).n_parents > 1 implies out.records@[i].files@.len()
        == 0 by {
        assert(interned(out.records@[i], raws[i], lists[i]@, atbl, ptbl));
        assert(lists[i]@.len() == 0);
    }
    assert forall|i: int, j: int|
        0 <= i < raws.len() && 0 <= j < out.records@[i].files@.len() && (#[trigger] out.records@[i].files@[j]).binary
            implies out.records@[i].files@[j].adds == 0 && out.records@[i].files@[j].dels == 0 by {
        assert(interned(out.records@[i], raws[i], lists[i]@, atbl, ptbl));
        assert(raws[i].n_parents <= 1) by {
            if raws[i].n_parents > 1 {
                assert(lists[i]@.len() == 0);
            }
        }
        let sv = lists[i]@.map_values(|s: RawFileStat| stat_view(s));
        assert(sv == spec_change_stats(changes[i]));
        lemma_binary_stats_count_no_lines(changes[i]);
        assert(sv[j] == stat_view(lists[i]@[j]));
        assert(spec_change_stats(changes[i])[j].3);
    }
}

} // verus!
