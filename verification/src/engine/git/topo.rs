//! Newest-to-oldest order of the walked commits: every commit comes before
//! its parents, and so before all of its ancestors among them.
//!
//! The graph is given by parent indices: `g[c]` lists the positions of the
//! parents of commit `c` among the walked commits.

use vstd::prelude::*;
use vstd::hash_map::HashMapWithView;
use crate::engine::git::walk::{bucket_of, oid_bucket, same_oid};
use crate::engine::model::Oid;

verus! {

broadcast use {vstd::std_specs::hash::group_hash_axioms, vstd::array::group_array_axioms};

/// The parent lists as sequences.
pub open spec fn graph_view(g: Seq<Vec<usize>>) -> Seq<Seq<usize>> {
    g.map_values(|v: Vec<usize>| v@)
}

/// Every parent index names a commit of the graph.
pub open spec fn closed_graph(g: Seq<Seq<usize>>) -> bool {
    forall|c: int, j: int| 0 <= c < g.len() && 0 <= j < g[c].len() ==> #[trigger] g[c][j] < g.len()
}

/// Number of parent entries of the first `m` commits.
pub open spec fn edge_total(g: Seq<Seq<usize>>, m: nat) -> nat
    decreases m,
{
    if m == 0 {
        0
    } else {
        edge_total(g, (m - 1) as nat) + g[m - 1].len()
    }
}

/// How often `x` occurs in `s`.
pub open spec fn occ(s: Seq<usize>, x: int) -> nat
    decreases s.len(),
{
    if s.len() == 0 {
        0
    } else {
        occ(s.drop_last(), x) + if s.last() == x {
            1nat
        } else {
            0nat
        }
    }
}

/// Parent entries naming `x` among the live commits of the first `m`.
pub open spec fn in_deg(g: Seq<Seq<usize>>, live: Seq<bool>, x: int, m: nat) -> nat
    decreases m,
{
    if m == 0 {
        0
    } else {
        in_deg(g, live, x, (m - 1) as nat) + if live[m - 1] {
            occ(g[m - 1], x)
        } else {
            0nat
        }
    }
}

/// Number of live commits among the first `m`.
pub open spec fn live_count(live: Seq<bool>, m: nat) -> nat
    decreases m,
{
    if m == 0 {
        0
    } else {
        live_count(live, (m - 1) as nat) + if live[m - 1] {
            1nat
        } else {
            0nat
        }
    }
}

/// `r` grows along every parent edge.
pub open spec fn ranked_by(g: Seq<Seq<usize>>, r: spec_fn(int) -> nat) -> bool {
    forall|c: int, j: int|
        #![trigger g[c][j]]
        0 <= c < g.len() && 0 <= j < g[c].len() ==> r(c) < r(g[c][j] as int)
}

/// The parent edges have no cycle: some rank grows along all of them.
pub open spec fn acyclic(g: Seq<Seq<usize>>) -> bool {
    exists|r: spec_fn(int) -> nat| ranked_by(g, r)
}

/// `order` lists each of the `n` commits exactly once.
pub open spec fn is_order(order: Seq<usize>, n: nat) -> bool {
    &&& order.no_duplicates()
    &&& forall|a: int| 0 <= a < order.len() ==> #[trigger] order[a] < n
    &&& forall|x: usize| x < n ==> #[trigger] order.contains(x)
}

/// No commit of `order` is a parent of itself or of a commit listed later.
pub open spec fn parents_after(order: Seq<usize>, g: Seq<Seq<usize>>) -> bool {
    forall|a: int, b: int|
        #![trigger order[a], order[b]]
        0 <= a <= b < order.len() ==> !g[order[b] as int].contains(order[a])
}

/// `path` follows parent edges: each entry is a parent of the one before.
pub open spec fn parent_path(g: Seq<Seq<usize>>, path: Seq<usize>) -> bool {
    forall|k: int| 1 <= k < path.len() ==> g[path[k - 1] as int].contains(#[trigger] path[k])
}

proof fn lemma_occ_bound(s: Seq<usize>, x: int)
    ensures
        occ(s, x) <= s.len(),
    decreases s.len(),
{
    if s.len() > 0 {
        lemma_occ_bound(s.drop_last(), x);
    }
}

proof fn lemma_occ_take(s: Seq<usize>, x: int, j: int)
    requires
        0 <= j < s.len(),
    ensures
        occ(s.take(j + 1), x) == occ(s.take(j), x) + if s[j] == x {
            1nat
        } else {
            0nat
        },
{
    assert(s.take(j + 1).drop_last() =~= s.take(j));
}

proof fn lemma_occ_prefix(s: Seq<usize>, x: int, j: int)
    requires
        0 <= j <= s.len(),
    ensures
        occ(s.take(j), x) <= occ(s, x),
        occ(s, x) - occ(s.take(j), x) >= if j < s.len() && s[j] == x {
            1int
        } else {
            0int
        },
    decreases s.len() - j,
{
    if j == s.len() {
        assert(s.take(j) =~= s);
    } else {
        lemma_occ_prefix(s, x, j + 1);
        lemma_occ_take(s, x, j);
    }
}

proof fn lemma_occ_pos(s: Seq<usize>, x: int)
    requires
        occ(s, x) > 0,
    ensures
        exists|j: int| 0 <= j < s.len() && s[j] == x,
    decreases s.len(),
{
    if s.last() != x {
        lemma_occ_pos(s.drop_last(), x);
        let j = choose|j: int| 0 <= j < s.drop_last().len() && s.drop_last()[j] == x;
        assert(s[j] == x);
    } else {
        assert(s[s.len() - 1] == x);
    }
}

proof fn lemma_occ_zero(s: Seq<usize>, x: usize)
    requires
        occ(s, x as int) == 0,
    ensures
        !s.contains(x),
    decreases s.len(),
{
    if s.len() > 0 {
        lemma_occ_zero(s.drop_last(), x);
        assert forall|j: int| 0 <= j < s.len() implies s[j] != x by {
            if j < s.len() - 1 {
                assert(s[j] == s.drop_last()[j]);
            }
        }
    }
}

proof fn lemma_in_deg_bound(g: Seq<Seq<usize>>, live: Seq<bool>, x: int, m: nat)
    ensures
        in_deg(g, live, x, m) <= edge_total(g, m),
    decreases m,
{
    if m > 0 {
        lemma_in_deg_bound(g, live, x, (m - 1) as nat);
        lemma_occ_bound(g[m - 1], x);
    }
}

proof fn lemma_edge_total_mono(g: Seq<Seq<usize>>, m: nat, k: nat)
    requires
        m <= k,
    ensures
        edge_total(g, m) <= edge_total(g, k),
    decreases k,
{
    if m < k {
        lemma_edge_total_mono(g, m, (k - 1) as nat);
    }
}

proof fn lemma_in_deg_pos(g: Seq<Seq<usize>>, live: Seq<bool>, x: int, m: nat)
    requires
        in_deg(g, live, x, m) > 0,
    ensures
        exists|c: int| 0 <= c < m && live[c] && occ(g[c], x) > 0,
    decreases m,
{
    if !(live[m - 1] && occ(g[m - 1], x) > 0) {
        lemma_in_deg_pos(g, live, x, (m - 1) as nat);
    }
}

proof fn lemma_in_deg_zero(g: Seq<Seq<usize>>, live: Seq<bool>, x: usize, m: nat)
    requires
        in_deg(g, live, x as int, m) == 0,
    ensures
        forall|c: int| 0 <= c < m && live[c] ==> !(#[trigger] g[c]).contains(x),
    decreases m,
{
    if m > 0 {
        lemma_in_deg_zero(g, live, x, (m - 1) as nat);
        if live[m - 1] {
            lemma_occ_zero(g[m - 1], x);
        }
    }
}

/// Retiring commit `x` takes its parent entries out of every count.
proof fn lemma_in_deg_retire(g: Seq<Seq<usize>>, live: Seq<bool>, x: int, y: int, m: nat)
    requires
        0 <= x < live.len(),
        m <= live.len(),
    ensures
        in_deg(g, live.update(x, false), y, m) + if x < m && live[x] {
            occ(g[x], y)
        } else {
            0nat
        } == in_deg(g, live, y, m),
    decreases m,
{
    if m > 0 {
        lemma_in_deg_retire(g, live, x, y, (m - 1) as nat);
    }
}

proof fn lemma_live_count_retire(live: Seq<bool>, x: int, m: nat)
    requires
        0 <= x < live.len(),
        m <= live.len(),
    ensures
        live_count(live.update(x, false), m) + if x < m && live[x] {
            1nat
        } else {
            0nat
        } == live_count(live, m),
    decreases m,
{
    if m > 0 {
        lemma_live_count_retire(live, x, (m - 1) as nat);
    }
}

/// Under a rank that grows along every edge, live commits that all have a
/// live child have ranks above every bound.
proof fn lemma_rank_unbounded(g: Seq<Seq<usize>>, live: Seq<bool>, r: spec_fn(int) -> nat, k: nat)
    requires
        ranked_by(g, r),
        live.len() == g.len(),
        forall|x: int| 0 <= x < g.len() && live[x] ==> in_deg(g, live, x, g.len()) > 0,
    ensures
        forall|x: int| 0 <= x < g.len() && live[x] ==> r(x) >= k,
    decreases k,
{
    if k > 0 {
        lemma_rank_unbounded(g, live, r, (k - 1) as nat);
        assert forall|x: int| 0 <= x < g.len() && live[x] implies r(x) >= k by {
            lemma_in_deg_pos(g, live, x, g.len());
            let c = choose|c: int| 0 <= c < g.len() && live[c] && occ(g[c], x) > 0;
            lemma_occ_pos(g[c], x);
            let j = choose|j: int| 0 <= j < g[c].len() && g[c][j] == x;
            assert(r(c) < r(g[c][j] as int));
        }
    }
}

/// A live commit whose every live commit has a live child shows a cycle.
proof fn lemma_stuck_is_cyclic(g: Seq<Seq<usize>>, live: Seq<bool>, x0: int)
    requires
        live.len() == g.len(),
        0 <= x0 < g.len(),
        live[x0],
        forall|x: int| 0 <= x < g.len() && live[x] ==> in_deg(g, live, x, g.len()) > 0,
    ensures
        !acyclic(g),
{
    if acyclic(g) {
        let r = choose|r: spec_fn(int) -> nat| ranked_by(g, r);
        lemma_rank_unbounded(g, live, r, r(x0) + 1);
    }
}

/// What `parents_after` says of parent edges says it of parent paths too:
/// no commit of `order` comes after one of its ancestors.
pub proof fn lemma_ancestors_after(order: Seq<usize>, g: Seq<Seq<usize>>, path: Seq<usize>, a: int, b: int)
    requires
        parents_after(order, g),
        is_order(order, g.len()),
        closed_graph(g),
        path.len() >= 2,
        parent_path(g, path),
        0 <= a < order.len(),
        0 <= b < order.len(),
        order[a] == path[0],
        order[b] == path.last(),
    ensures
        a < b,
    decreases path.len(),
{
    assert(g[path[0] as int].contains(path[1]));
    if path.len() == 2 {
        if b <= a {
            assert(!g[order[a] as int].contains(order[b]));
        }
    } else {
        let rest = path.drop_first();
        assert(parent_path(g, rest)) by {
            assert forall|k: int| 1 <= k < rest.len() implies g[rest[k - 1] as int].contains(
                #[trigger] rest[k],
            ) by {
                assert(path[k + 1] == rest[k]);
                assert(g[path[k] as int].contains(path[k + 1]));
            }
        }
        assert(g[order[b] as int] == g[path.last() as int]);
        let p1 = path[1];
        let k0 = choose|k: int| 0 <= k < g[path[0] as int].len() && g[path[0] as int][k] == p1;
        assert(g[path[0] as int][k0] < g.len());
        assert(order.contains(p1));
        let m = choose|m: int| 0 <= m < order.len() && order[m] == p1;
        lemma_ancestors_after(order, g, rest, m, b);
        if m <= a {
            assert(!g[order[a] as int].contains(order[m]));
        }
    }
}

proof fn lemma_live_count_all(live: Seq<bool>, m: nat)
    requires
        m <= live.len(),
        forall|x: int| 0 <= x < m ==> live[x],
    ensures
        live_count(live, m) == m,
    decreases m,
{
    if m > 0 {
        lemma_live_count_all(live, (m - 1) as nat);
    }
}

/// Counts, for each commit, the parent entries that name it.
fn count_children(g: &Vec<Vec<usize>>, Ghost(all): Ghost<Seq<bool>>) -> (indeg: Vec<usize>)
    requires
        closed_graph(graph_view(g@)),
        edge_total(graph_view(g@), g@.len()) <= usize::MAX,
        all.len() == g@.len(),
        forall|x: int| 0 <= x < g@.len() ==> all[x],
    ensures
        indeg@.len() == g@.len(),
        forall|x: int| 0 <= x < g@.len() ==> #[trigger] indeg@[x] == in_deg(graph_view(g@), all, x, g@.len()),
{
    let ghost gv = graph_view(g@);
    let n = g.len();
    let mut indeg: Vec<usize> = Vec::new();
    let mut k: usize = 0;
    while k < n
        invariant
            k <= n,
            n == g@.len(),
            indeg@.len() == k,
            forall|x: int| 0 <= x < k ==> indeg@[x] == 0,
        decreases n - k,
    {
        indeg.push(0);
        k = k + 1;
    }
    let mut c: usize = 0;
    while c < n
        invariant
            n == g@.len(),
            gv == graph_view(g@),
            closed_graph(gv),
            edge_total(gv, n as nat) <= usize::MAX,
            all.len() == n,
            forall|x: int| 0 <= x < n ==> all[x],
            c <= n,
            indeg@.len() == n,
            forall|x: int| 0 <= x < n ==> #[trigger] indeg@[x] == in_deg(gv, all, x, c as nat),
        decreases n - c,
    {
        let ps = &g[c];
        let mut j: usize = 0;
        assert(gv[c as int] == ps@);
        while j < ps.len()
            invariant
                n == g@.len(),
                gv == graph_view(g@),
                closed_graph(gv),
                edge_total(gv, n as nat) <= usize::MAX,
                all.len() == n,
                forall|x: int| 0 <= x < n ==> all[x],
                c < n,
                gv[c as int] == ps@,
                j <= ps@.len(),
                indeg@.len() == n,
                forall|x: int|
                    0 <= x < n ==> #[trigger] indeg@[x] == in_deg(gv, all, x, c as nat) + occ(
                        gv[c as int].take(j as int),
                        x,
                    ),
            decreases ps@.len() - j,
        {
            let p = ps[j];
            proof {
                assert(gv[c as int][j as int] < n);
                lemma_occ_take(gv[c as int], p as int, j as int);
                lemma_occ_prefix(gv[c as int], p as int, j as int + 1);
                lemma_in_deg_bound(gv, all, p as int, (c + 1) as nat);
                lemma_edge_total_mono(gv, (c + 1) as nat, n as nat);
                assert(indeg@[p as int] == in_deg(gv, all, p as int, c as nat) + occ(gv[c as int].take(j as int), p as int));
            }
            indeg.set(p, indeg[p] + 1);
            proof {
                assert forall|x: int| 0 <= x < n implies #[trigger] indeg@[x] == in_deg(gv, all, x, c as nat) + occ(
                    gv[c as int].take(j + 1),
                    x,
                ) by {
                    lemma_occ_take(gv[c as int], x, j as int);
                }
            }
            j = j + 1;
        }
        assert(gv[c as int].take(j as int) =~= gv[c as int]);
        c = c + 1;
    }
    indeg
}

/// The commits of `g` ordered so that each comes before its parents:
/// commits with no remaining child are taken in the order they become free,
/// the first ones in index order. `None` exactly when the parent edges hold
/// a cycle, which no git history does.
#[verifier::rlimit(60)]
pub fn topo_order(g: &Vec<Vec<usize>>) -> (r: Option<Vec<usize>>)
    requires
        closed_graph(graph_view(g@)),
        edge_total(graph_view(g@), g@.len()) <= usize::MAX,
    ensures
        r is Some <==> acyclic(graph_view(g@)),
        r matches Some(order) ==> is_order(order@, g@.len()) && parents_after(order@, graph_view(g@)),
{
    let ghost gv = graph_view(g@);
    let n = g.len();
    let mut live: Vec<bool> = Vec::new();
    let mut k: usize = 0;
    while k < n
        invariant
            k <= n,
            n == g@.len(),
            live@.len() == k,
            forall|x: int| 0 <= x < k ==> live@[x],
        decreases n - k,
    {
        live.push(true);
        k = k + 1;
    }
    let ghost all = live@;
    let mut indeg = count_children(g, Ghost(all));
    let mut order: Vec<usize> = Vec::new();
    let mut x: usize = 0;
    while x < n
        invariant
            n == g@.len(),
            x <= n,
            indeg@.len() == n,
            forall|a: int| 0 <= a < order@.len() ==> order@[a] < x && indeg@[order@[a] as int] == 0,
            forall|a: int, b: int| 0 <= a < b < order@.len() ==> order@[a] < order@[b],
            forall|y: usize| y < x && indeg@[y as int] == 0 ==> #[trigger] order@.contains(y),
        decreases n - x,
    {
        if indeg[x] == 0 {
            let ghost before = order@;
            order.push(x);
            assert forall|y: usize| y < x + 1 && indeg@[y as int] == 0 implies #[trigger] order@.contains(y) by {
                if y == x {
                    assert(order@[order@.len() - 1] == y);
                } else {
                    assert(before.contains(y));
                    let a = choose|a: int| 0 <= a < before.len() && before[a] == y;
                    assert(order@[a] == y);
                }
            }
        }
        x = x + 1;
    }
    proof {
        lemma_live_count_all(all, n as nat);
        assert(order@.subrange(0, order@.len() as int) =~= order@);
        assert(order@.take(0) =~= Seq::<usize>::empty());
        assert forall|a: int, c: int|
            #![trigger order@[a], live@[c]]
            0 <= a < order@.len() && 0 <= c < n && live@[c] implies !gv[c].contains(order@[a]) by {
            lemma_in_deg_zero(gv, all, order@[a], n as nat);
        }
        assert forall|a: int, b: int| #![trigger order@[a], order@[b]]
            0 <= a <= b < order@.len() implies !gv[order@[b] as int].contains(order@[a]) by {
            lemma_in_deg_zero(gv, all, order@[a], n as nat);
            assert(live@[order@[b] as int]);
        }
    }
    let mut h: usize = 0;
    while h < order.len()
        invariant
            n == g@.len(),
            gv == graph_view(g@),
            closed_graph(gv),
            indeg@.len() == n,
            live@.len() == n,
            h <= order@.len(),
            live_count(live@, n as nat) + h == n,
            forall|a: int| 0 <= a < order@.len() ==> #[trigger] order@[a] < n,
            order@.no_duplicates(),
            forall|y: int| 0 <= y < n ==> (#[trigger] live@[y] <==> !order@.take(h as int).contains(y as usize)),
            forall|y: int| 0 <= y < n ==> #[trigger] indeg@[y] == in_deg(gv, live@, y, n as nat),
            forall|y: int|
                0 <= y < n ==> ((live@[y] && #[trigger] indeg@[y] == 0) <==> order@.subrange(
                    h as int,
                    order@.len() as int,
                ).contains(y as usize)),
            forall|a: int, c: int|
                #![trigger order@[a], live@[c]]
                0 <= a < order@.len() && 0 <= c < n && live@[c] ==> !gv[c].contains(order@[a]),
            parents_after(order@, gv),
        decreases n - h,
    {
        let x = order[h];
        let ghost old_live = live@;
        let ghost old_order = order@;
        proof {
            assert(!order@.take(h as int).contains(x)) by {
                if order@.take(h as int).contains(x) {
                    let a = choose|a: int| 0 <= a < h && order@.take(h as int)[a] == x;
                    assert(order@[a] == order@[h as int]);
                }
            }
            assert(old_live[x as int]);
            assert(order@.subrange(h as int, order@.len() as int)[0] == x);
            assert(indeg@[x as int] == 0);
            assert forall|a: int| 0 <= a < old_order.len() implies !gv[x as int].contains(#[trigger] old_order[a]) by {
                assert(live@[x as int]);
            }
            lemma_live_count_retire(old_live, x as int, n as nat);
        }
        live.set(x, false);
        let ps = &g[x];
        assert(gv[x as int] == ps@);
        let mut j: usize = 0;
        proof {
            assert(gv[x as int].take(0) =~= Seq::<usize>::empty());
            assert forall|y: int| 0 <= y < n implies ((live@[y] && #[trigger] indeg@[y] == 0) <==> order@.subrange(
                h + 1,
                order@.len() as int,
            ).contains(y as usize)) by {
                let s1 = order@.subrange(h + 1, order@.len() as int);
                let s0 = order@.subrange(h as int, order@.len() as int);
                if s1.contains(y as usize) {
                    let q = choose|q: int| 0 <= q < s1.len() && s1[q] == y as usize;
                    assert(order@[h + 1 + q] == y);
                    assert(s0[q + 1] == y);
                    assert(y != x);
                }
                if live@[y] && indeg@[y] == 0 {
                    assert(y != x);
                    assert(old_live[y]);
                    let q = choose|q: int| 0 <= q < s0.len() && s0[q] == y as usize;
                    assert(q != 0);
                    assert(s1[q - 1] == y);
                }
            }
        }
        while j < ps.len()
            invariant
                n == g@.len(),
                gv == graph_view(g@),
                closed_graph(gv),
                x < n,
                gv[x as int] == ps@,
                j <= ps@.len(),
                indeg@.len() == n,
                old_live.len() == n,
                old_live[x as int],
                live@ == old_live.update(x as int, false),
                h < old_order.len(),
                old_order[h as int] == x,
                order@.len() >= old_order.len(),
                forall|a: int| 0 <= a < old_order.len() ==> order@[a] == old_order[a],
                forall|a: int| 0 <= a < order@.len() ==> #[trigger] order@[a] < n,
                order@.no_duplicates(),
                forall|a: int| 0 <= a < old_order.len() ==> !gv[x as int].contains(#[trigger] old_order[a]),
                forall|y: int| 0 <= y < n ==> (#[trigger] old_live[y] <==> !old_order.take(h as int).contains(y as usize)),
                forall|y: int|
                    0 <= y < n ==> #[trigger] indeg@[y] + occ(gv[x as int].take(j as int), y) == in_deg(
                        gv,
                        old_live,
                        y,
                        n as nat,
                    ),
                forall|y: int|
                    0 <= y < n ==> ((live@[y] && #[trigger] indeg@[y] == 0) <==> order@.subrange(
                        h + 1,
                        order@.len() as int,
                    ).contains(y as usize)),
                forall|a: int, c: int|
                    #![trigger order@[a], live@[c]]
                    0 <= a < order@.len() && 0 <= c < n && live@[c] ==> !gv[c].contains(order@[a]),
                parents_after(order@, gv),
            decreases ps@.len() - j,
        {
            let p = ps[j];
            proof {
                assert(gv[x as int][j as int] == p);
                assert(p < n);
                lemma_in_deg_retire(gv, old_live, x as int, p as int, n as nat);
                lemma_occ_prefix(gv[x as int], p as int, j as int);
                lemma_occ_take(gv[x as int], p as int, j as int);
                lemma_occ_prefix(gv[x as int], p as int, j as int + 1);
                assert(indeg@[p as int] >= 1);
                assert(!order@.subrange(h + 1, order@.len() as int).contains(p));
            }
            let ghost pre = indeg@;
            proof {
                assert forall|y: int| 0 <= y < n implies ((live@[y] && #[trigger] pre[y] == 0) <==> order@.subrange(
                    h + 1,
                    order@.len() as int,
                ).contains(y as usize)) by {
                    assert(pre[y] == indeg@[y]);
                }
            }
            indeg.set(p, indeg[p] - 1);
            proof {
                assert forall|y: int| 0 <= y < n && y != p implies #[trigger] indeg@[y] == pre[y] by {}
                assert forall|y: int| 0 <= y < n implies #[trigger] indeg@[y] + occ(gv[x as int].take(j + 1), y)
                    == in_deg(gv, old_live, y, n as nat) by {
                    lemma_occ_take(gv[x as int], y, j as int);
                }
            }
            if indeg[p] == 0 {
                let ghost before = order@;
                proof {
                    assert(gv[x as int].contains(p));
                    assert(!before.contains(p)) by {
                        if before.contains(p) {
                            let a = choose|a: int| 0 <= a < before.len() && before[a] == p;
                            if a < old_order.len() {
                                assert(old_order[a] == p);
                            } else {
                                assert(before.subrange(h + 1, before.len() as int)[a - h - 1] == p);
                            }
                        }
                    }
                    assert(p != x);
                    assert(!old_order.take(h as int).contains(p)) by {
                        if old_order.take(h as int).contains(p) {
                            let a = choose|a: int| 0 <= a < h && old_order.take(h as int)[a] == p;
                            assert(old_order[a] == p);
                        }
                    }
                    assert(live@[p as int]);
                    lemma_in_deg_retire(gv, old_live, x as int, p as int, n as nat);
                    assert(in_deg(gv, live@, p as int, n as nat) == 0);
                    lemma_in_deg_zero(gv, live@, p, n as nat);
                }
                order.push(p);
                proof {
                    assert(order@ == before.push(p));
                    assert(order@.no_duplicates()) by {
                        assert forall|a: int, b: int| 0 <= a < b < order@.len() implies order@[a] != order@[b] by {
                            if b == order@.len() - 1 {
                                assert(before.contains(before[a]));
                            } else {
                                assert(before[a] != before[b]);
                            }
                        }
                    }
                    assert forall|a: int, c: int|
                        #![trigger order@[a], live@[c]]
                        0 <= a < order@.len() && 0 <= c < n && live@[c] implies !gv[c].contains(order@[a]) by {
                        if a < before.len() {
                            assert(before[a] == order@[a]);
                        }
                    }
                    assert forall|a: int, b: int| #![trigger order@[a], order@[b]]
                        0 <= a <= b < order@.len() implies !gv[order@[b] as int].contains(order@[a]) by {
                        if b < before.len() {
                            assert(before[a] == order@[a] && before[b] == order@[b]);
                        } else {
                            assert(order@[b] == p);
                            assert(live@[p as int]);
                        }
                    }
                    assert forall|y: int| 0 <= y < n implies ((live@[y] && #[trigger] indeg@[y] == 0)
                        <==> order@.subrange(h + 1, order@.len() as int).contains(y as usize)) by {
                        let s0 = before.subrange(h + 1, before.len() as int);
                        assert(order@.subrange(h + 1, order@.len() as int) =~= s0.push(p));
                        if y != p {
                            assert(indeg@[y] == pre[y]);
                        }
                        if y == p {
                            assert(s0.push(p)[s0.len() as int] == p);
                        } else {
                            if s0.push(p).contains(y as usize) {
                                let q = choose|q: int| 0 <= q < s0.push(p).len() && s0.push(p)[q] == y as usize;
                                assert(s0[q] == y);
                            }
                            if s0.contains(y as usize) {
                                let q = choose|q: int| 0 <= q < s0.len() && s0[q] == y as usize;
                                assert(s0.push(p)[q] == y);
                            }
                        }
                    }
                }
            } else {
                proof {
                    assert forall|y: int| 0 <= y < n implies ((live@[y] && #[trigger] indeg@[y] == 0)
                        <==> order@.subrange(h + 1, order@.len() as int).contains(y as usize)) by {
                        if y != p {
                            assert(indeg@[y] == pre[y]);
                        }
                        if y == p {
                            if order@.subrange(h + 1, order@.len() as int).contains(y as usize) {
                                assert(indeg@[y] != 0);
                            }
                        }
                    }
                }
            }
            j = j + 1;
        }
        proof {
            assert(gv[x as int].take(j as int) =~= gv[x as int]);
            assert forall|y: int| 0 <= y < n implies #[trigger] indeg@[y] == in_deg(gv, live@, y, n as nat) by {
                lemma_in_deg_retire(gv, old_live, x as int, y, n as nat);
            }
            assert(order@.take(h + 1) =~= old_order.take(h as int).push(x));
            assert forall|y: int| 0 <= y < n implies (#[trigger] live@[y] <==> !order@.take(h + 1).contains(
                y as usize,
            )) by {
                let t = old_order.take(h as int);
                if y != x {
                    if t.push(x).contains(y as usize) {
                        let q = choose|q: int| 0 <= q < t.push(x).len() && t.push(x)[q] == y as usize;
                        assert(t[q] == y);
                    }
                    if t.contains(y as usize) {
                        let q = choose|q: int| 0 <= q < t.len() && t[q] == y as usize;
                        assert(t.push(x)[q] == y);
                    }
                } else {
                    assert(t.push(x)[h as int] == x);
                }
            }
        }
        h = h + 1;
    }
    let mut y: usize = 0;
    while y < n
        invariant
            n == g@.len(),
            gv == graph_view(g@),
            live@.len() == n,
            indeg@.len() == n,
            h == order@.len(),
            y <= n,
            forall|z: int| 0 <= z < y ==> !live@[z],
            forall|z: int| 0 <= z < n ==> #[trigger] indeg@[z] == in_deg(gv, live@, z, n as nat),
            forall|z: int|
                0 <= z < n ==> ((live@[z] && #[trigger] indeg@[z] == 0) <==> order@.subrange(
                    h as int,
                    order@.len() as int,
                ).contains(z as usize)),
        decreases n - y,
    {
        if live[y] {
            proof {
                assert forall|z: int| 0 <= z < gv.len() && live@[z] implies in_deg(gv, live@, z, gv.len()) > 0 by {
                    assert(indeg@[z] == in_deg(gv, live@, z, n as nat));
                    if indeg@[z] == 0 {
                        assert(order@.subrange(h as int, order@.len() as int).len() == 0);
                    }
                }
                lemma_stuck_is_cyclic(gv, live@, y as int);
            }
            return None;
        }
        y = y + 1;
    }
    proof {
        assert(order@.take(h as int) =~= order@);
        assert forall|z: usize| z < n implies #[trigger] order@.contains(z) by {
            assert(!live@[z as int]);
        }
        let rk = |c: int| (choose|k: int| 0 <= k < order@.len() && order@[k] as int == c) as nat;
        assert forall|c: int, j: int| #![trigger gv[c][j]] 0 <= c < gv.len() && 0 <= j < gv[c].len() implies rk(c) < rk(
            gv[c][j] as int,
        ) by {
            let p = gv[c][j];
            assert(p < n);
            assert(order@.contains(c as usize));
            assert(order@.contains(p));
            let kc = choose|k: int| 0 <= k < order@.len() && order@[k] as int == c;
            let kp = choose|k: int| 0 <= k < order@.len() && order@[k] as int == p as int;
            assert(rk(c) == kc);
            assert(rk(p as int) == kp);
            assert(gv[c].contains(p));
            if kp <= kc {
                assert(!gv[order@[kc] as int].contains(order@[kp]));
            }
        }
        assert(ranked_by(gv, rk));
    }
    Some(order)
}

// ------------------------------------------------------------------
// From object ids to positions
// ------------------------------------------------------------------

/// Position of the first entry of `ids` equal to `o`.
pub open spec fn first_index(ids: Seq<Seq<u8>>, o: Seq<u8>) -> Option<int>
    decreases ids.len(),
{
    if ids.len() == 0 {
        None
    } else {
        match first_index(ids.drop_last(), o) {
            Some(i) => Some(i),
            None => if ids.last() == o {
                Some(ids.len() - 1)
            } else {
                None
            },
        }
    }
}

/// Positions of the parents `ps` among `ids`; parents outside `ids` are
/// left out.
pub open spec fn parent_positions(ids: Seq<Seq<u8>>, ps: Seq<Seq<u8>>) -> Seq<usize>
    decreases ps.len(),
{
    if ps.len() == 0 {
        Seq::empty()
    } else {
        let rest = parent_positions(ids, ps.drop_last());
        match first_index(ids, ps.last()) {
            Some(i) => rest.push(i as usize),
            None => rest,
        }
    }
}

/// Ids of the walked commits.
pub open spec fn commit_ids_of(commits: Seq<(Oid, Vec<Oid>)>) -> Seq<Seq<u8>> {
    commits.map_values(|c: (Oid, Vec<Oid>)| c.0@)
}

/// The parent edges among the walked commits, each commit with its id and
/// the ids of its parents.
pub open spec fn commit_graph(commits: Seq<(Oid, Vec<Oid>)>) -> Seq<Seq<usize>> {
    commits.map_values(
        |c: (Oid, Vec<Oid>)| parent_positions(commit_ids_of(commits), c.1@.map_values(|o: Oid| o@)),
    )
}

proof fn lemma_first_index(ids: Seq<Seq<u8>>, o: Seq<u8>)
    ensures
        match first_index(ids, o) {
            Some(i) => 0 <= i < ids.len() && ids[i] == o && forall|j: int| 0 <= j < i ==> ids[j] != o,
            None => forall|j: int| 0 <= j < ids.len() ==> ids[j] != o,
        },
    decreases ids.len(),
{
    if ids.len() > 0 {
        lemma_first_index(ids.drop_last(), o);
        assert forall|j: int| 0 <= j < ids.len() - 1 implies ids[j] == ids.drop_last()[j] by {}
    }
}

proof fn lemma_positions_bound(ids: Seq<Seq<u8>>, ps: Seq<Seq<u8>>)
    ensures
        forall|j: int| 0 <= j < parent_positions(ids, ps).len() ==> #[trigger] parent_positions(ids, ps)[j] < ids.len(),
        parent_positions(ids, ps).len() <= ps.len(),
    decreases ps.len(),
{
    if ps.len() > 0 {
        lemma_positions_bound(ids, ps.drop_last());
        lemma_first_index(ids, ps.last());
    }
}

/// Bucket table of positions: every position sits in the bucket of its
/// id, each bucket in increasing order.
spec fn positions_ok(m: Map<u64, Vec<usize>>, ids: Seq<Seq<u8>>, n: int) -> bool {
    &&& forall|k: u64, q: int|
        m.contains_key(k) && 0 <= q < m[k]@.len() ==> #[trigger] m[k]@[q] < n && oid_bucket(ids[m[k]@[q] as int]) == k
    &&& forall|k: u64, q1: int, q2: int|
        m.contains_key(k) && 0 <= q1 < q2 < m[k]@.len() ==> #[trigger] m[k]@[q1] < #[trigger] m[k]@[q2]
    &&& forall|j: int|
        0 <= j < n ==> #[trigger] m.contains_key(oid_bucket(ids[j])) && m[oid_bucket(ids[j])]@.contains(j as usize)
}

fn position_table(commits: &Vec<(Oid, Vec<Oid>)>) -> (m: HashMapWithView<u64, Vec<usize>>)
    ensures
        positions_ok(m@, commit_ids_of(commits@), commits@.len() as int),
{
    let ghost ids = commit_ids_of(commits@);
    let mut m: HashMapWithView<u64, Vec<usize>> = HashMapWithView::new();
    let mut i: usize = 0;
    while i < commits.len()
        invariant
            ids == commit_ids_of(commits@),
            i <= commits@.len(),
            positions_ok(m@, ids, i as int),
        decreases commits@.len() - i,
    {
        let k = bucket_of(&commits[i].0);
        assert(ids[i as int] == commits@[i as int].0@);
        let ghost old_m = m@;
        assert(positions_ok(old_m, ids, i as int));
        let mut v: Vec<usize> = match m.remove(&k) {
            Some(v) => v,
            None => Vec::new(),
        };
        let ghost old_v = v@;
        assert(old_m.contains_key(k) ==> old_v == old_m[k]@);
        assert(!old_m.contains_key(k) ==> old_v.len() == 0);
        v.push(i);
        m.insert(k, v);
        proof {
            assert forall|k2: u64, q: int| m@.contains_key(k2) && 0 <= q < m@[k2]@.len() implies #[trigger] m@[k2]@[q]
                < i + 1 && oid_bucket(ids[m@[k2]@[q] as int]) == k2 by {
                if k2 != k {
                    assert(m@[k2] == old_m[k2]);
                } else if q < old_v.len() {
                    assert(m@[k2]@[q] == old_m[k2]@[q]);
                }
            }
            assert forall|k2: u64, q1: int, q2: int| m@.contains_key(k2) && 0 <= q1 < q2 < m@[k2]@.len() implies #[trigger] m@[k2]@[q1]
                < #[trigger] m@[k2]@[q2] by {
                if k2 != k {
                    assert(m@[k2] == old_m[k2]);
                } else {
                    assert(m@[k2]@[q1] == old_m[k2]@[q1]);
                    if q2 < old_v.len() {
                        assert(m@[k2]@[q2] == old_m[k2]@[q2]);
                    }
                }
            }
            assert forall|j: int| 0 <= j < i + 1 implies #[trigger] m@.contains_key(oid_bucket(ids[j]))
                && m@[oid_bucket(ids[j])]@.contains(j as usize) by {
                let b = oid_bucket(ids[j]);
                if j == i {
                    assert(b == k);
                    assert(m@[k]@[old_v.len() as int] == i);
                } else if b != k {
                    assert(0 <= j < i);
                    assert(old_m.contains_key(oid_bucket(ids[j])));
                    assert(old_m.contains_key(b) && old_m[b]@.contains(j as usize));
                    assert(m@[b] == old_m[b]);
                } else {
                    assert(old_m.contains_key(b) && old_m[b]@.contains(j as usize));
                    let q = choose|q: int| 0 <= q < old_m[b]@.len() && old_m[b]@[q] == j as usize;
                    assert(m@[b]@[q] == j);
                }
            }
            assert(positions_ok(m@, ids, i + 1));
        }
        i = i + 1;
    }
    m
}

fn find_first(m: &HashMapWithView<u64, Vec<usize>>, commits: &Vec<(Oid, Vec<Oid>)>, o: &Oid) -> (r: Option<usize>)
    requires
        positions_ok(m@, commit_ids_of(commits@), commits@.len() as int),
    ensures
        match r {
            Some(i) => first_index(commit_ids_of(commits@), o@) == Some(i as int),
            None => first_index(commit_ids_of(commits@), o@) is None,
        },
{
    let ghost ids = commit_ids_of(commits@);
    proof {
        lemma_first_index(ids, o@);
    }
    let k = bucket_of(o);
    match m.get(&k) {
        None => {
            proof {
                if first_index(ids, o@) is Some {
                    let j = first_index(ids, o@)->0;
                    assert(ids[j] == o@);
                    assert(ids.len() == commits@.len());
                    assert(m@.contains_key(oid_bucket(ids[j])));
                }
            }
            None
        },
        Some(v) => {
            let mut q: usize = 0;
            while q < v.len()
                invariant
                    ids == commit_ids_of(commits@),
                    positions_ok(m@, ids, commits@.len() as int),
                    m@.contains_key(k),
                    *v == m@[k],
                    k == oid_bucket(o@),
                    q <= v@.len(),
                    forall|q2: int| 0 <= q2 < q ==> ids[#[trigger] v@[q2] as int] != o@,
                decreases v@.len() - q,
            {
                let i = v[q];
                assert(i < commits@.len());
                assert(ids[i as int] == commits@[i as int].0@);
                if same_oid(&commits[i].0, o) {
                    proof {
                        lemma_first_index(ids, o@);
                        assert forall|j: int| 0 <= j < i implies ids[j] != o@ by {
                            if ids[j] == o@ {
                                let q2 = choose|q2: int| 0 <= q2 < v@.len() && v@[q2] == j as usize;
                                if q2 >= q {
                                    if q2 > q {
                                        assert(v@[q as int] < v@[q2]);
                                    }
                                }
                            }
                        }
                        match first_index(ids, o@) {
                            Some(i2) => {
                                assert(ids[i2] == o@);
                                if i2 < i {
                                    assert(ids[i2] != o@);
                                } else if i2 > i {
                                    assert(ids[i as int] == o@);
                                }
                            },
                            None => {
                                assert(ids[i as int] == o@);
                            },
                        }
                    }
                    return Some(i);
                }
                q = q + 1;
            }
            proof {
                lemma_first_index(ids, o@);
                if first_index(ids, o@) is Some {
                    let j = first_index(ids, o@)->0;
                    assert(ids[j] == o@);
                    assert(ids.len() == commits@.len());
                    assert(j < commits@.len());
                    assert(commits@.len() == commits.len());
                    assert(m@.contains_key(oid_bucket(ids[j])));
                    assert(v@.contains(j as usize));
                    let q2 = choose|q2: int| 0 <= q2 < v@.len() && v@[q2] == j as usize;
                    assert(ids[v@[q2] as int] != o@);
                }
            }
            None
        },
    }
}

/// Positions of the parents of each walked commit among the walked commits.
fn parent_graph(commits: &Vec<(Oid, Vec<Oid>)>) -> (g: Vec<Vec<usize>>)
    ensures
        graph_view(g@) == commit_graph(commits@),
{
    let ghost ids = commit_ids_of(commits@);
    let m = position_table(commits);
    let mut g: Vec<Vec<usize>> = Vec::new();
    let mut c: usize = 0;
    while c < commits.len()
        invariant
            ids == commit_ids_of(commits@),
            positions_ok(m@, ids, commits@.len() as int),
            c <= commits@.len(),
            g@.len() == c,
            forall|b: int| 0 <= b < c ==> #[trigger] g@[b]@ == commit_graph(commits@)[b],
        decreases commits@.len() - c,
    {
        let ps = &commits[c].1;
        let ghost pv = ps@.map_values(|o: Oid| o@);
        let mut row: Vec<usize> = Vec::new();
        let mut j: usize = 0;
        while j < ps.len()
            invariant
                ids == commit_ids_of(commits@),
                positions_ok(m@, ids, commits@.len() as int),
                pv == ps@.map_values(|o: Oid| o@),
                j <= ps@.len(),
                row@ == parent_positions(ids, pv.take(j as int)),
            decreases ps@.len() - j,
        {
            let found = find_first(&m, commits, &ps[j]);
            proof {
                assert(pv.take(j + 1).drop_last() =~= pv.take(j as int));
                assert(pv.take(j + 1).last() == ps@[j as int]@);
            }
            match found {
                Some(i) => {
                    row.push(i);
                },
                None => {},
            }
            j = j + 1;
        }
        assert(pv.take(j as int) =~= pv);
        assert(commit_graph(commits@)[c as int] == parent_positions(ids, pv));
        g.push(row);
        c = c + 1;
    }
    assert(graph_view(g@) =~= commit_graph(commits@));
    g
}

/// The walked commits, each with the ids of its parents, in an order where
/// every commit comes before its parents: the positions of `commits` in
/// that order. `None` when the parent edges hold a cycle (no git history
/// does) or hold more entries than a `usize` counts.
pub fn walk_order(commits: &Vec<(Oid, Vec<Oid>)>) -> (r: Option<Vec<usize>>)
    ensures
        r is Some <==> acyclic(commit_graph(commits@)) && edge_total(commit_graph(commits@), commits@.len())
            <= usize::MAX,
        r matches Some(order) ==> is_order(order@, commits@.len()) && parents_after(order@, commit_graph(commits@)),
{
    let ghost gv = commit_graph(commits@);
    let g = parent_graph(commits);
    assert(graph_view(g@).len() == g@.len());
    assert(gv.len() == commits@.len());
    let mut total: usize = 0;
    let mut c: usize = 0;
    while c < g.len()
        invariant
            graph_view(g@) == gv,
            gv == commit_graph(commits@),
            g@.len() == commits@.len(),
            c <= g@.len(),
            total == edge_total(gv, c as nat),
        decreases g@.len() - c,
    {
        assert(gv[c as int] == g@[c as int]@);
        match total.checked_add(g[c].len()) {
            Some(t) => {
                total = t;
            },
            None => {
                proof {
                    assert(edge_total(gv, (c + 1) as nat) == edge_total(gv, c as nat) + gv[c as int].len());
                    lemma_edge_total_mono(gv, (c + 1) as nat, g@.len() as nat);
                }
                return None;
            },
        }
        c = c + 1;
    }
    proof {
        let ids = commit_ids_of(commits@);
        assert forall|a: int, j: int| 0 <= a < gv.len() && 0 <= j < gv[a].len() implies #[trigger] gv[a][j] < gv.len() by {
            lemma_positions_bound(ids, commits@[a].1@.map_values(|o: Oid| o@));
        }
    }
    topo_order(&g)
}

} // verus!
