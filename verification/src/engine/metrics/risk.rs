//! Repository risk: how many sizable files one author alone covers.

use vstd::prelude::*;
use crate::engine::metrics::hotspots::lemma_filter_step;

verus! {


/// A file with at least `min_lines` kept lines.
pub open spec fn sizable(min_lines: u32) -> spec_fn((u32, usize)) -> bool {
    |r: (u32, usize)| r.0 >= min_lines
}

/// A sizable file that one author alone covers.
pub open spec fn sizable_single_owner(min_lines: u32) -> spec_fn((u32, usize)) -> bool {
    |r: (u32, usize)| r.0 >= min_lines && r.1 == 1
}

/// Over files given as (kept lines, bus factor): how many with at least
/// `min_lines` kept lines have bus factor 1, and how many have at least
/// `min_lines` kept lines.
pub fn repo_risk(rows: &[(u32, usize)], min_lines: u32) -> (r: (usize, usize))
    ensures
        r.0 == rows@.filter(sizable_single_owner(min_lines)).len(),
        r.1 == rows@.filter(sizable(min_lines)).len(),
{
    let ghost one = sizable_single_owner(min_lines);
    let ghost big = sizable(min_lines);
    let mut bf1: usize = 0;
    let mut total: usize = 0;
    let mut i: usize = 0;
    while i < rows.len()
        invariant
            i <= rows@.len(),
            one == sizable_single_owner(min_lines),
            big == sizable(min_lines),
            bf1 == rows@.take(i as int).filter(one).len(),
            total == rows@.take(i as int).filter(big).len(),
            bf1 <= i,
            total <= i,
        decreases rows@.len() - i,
    {
        proof {
            lemma_filter_step(rows@, one, i as int);
            lemma_filter_step(rows@, big, i as int);
        }
        let (kept, bf) = rows[i];
        if kept >= min_lines {
            total = total + 1;
            if bf == 1 {
                bf1 = bf1 + 1;
            }
        }
        i = i + 1;
    }
    proof {
        assert(rows@.take(i as int) =~= rows@);
    }
    (bf1, total)
}


proof fn lemma_filter_narrower(s: Seq<(u32, usize)>, min_lines: u32)
    ensures
        s.filter(sizable_single_owner(min_lines)).len() <= s.filter(sizable(min_lines)).len(),
    decreases s.len(),
{
    reveal(Seq::filter);
    if s.len() > 0 {
        lemma_filter_narrower(s.drop_last(), min_lines);
    }
}

/// Files with bus factor 1 are among the sizable ones: the first count
/// never exceeds the second.
pub proof fn lemma_risk_counts_ordered(rows: Seq<(u32, usize)>, min_lines: u32)
    ensures
        rows.filter(sizable_single_owner(min_lines)).len() <= rows.filter(sizable(min_lines)).len(),
{
    lemma_filter_narrower(rows, min_lines);
}

} // verus!
