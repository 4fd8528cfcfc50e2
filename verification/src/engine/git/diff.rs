//! Per-commit diff policies: which tree changes count, and how a changed
//! blob becomes (path, adds, dels, binary).
//!
//! Merges get no diff; subtree entries are skipped (their files arrive one
//! by one); renames count on the new path; binary blobs and entries that
//! are not blobs (submodules) count as touches without lines.

use vstd::prelude::*;
use crate::engine::git::blob::{is_binary, line_count, looks_binary};
use crate::engine::git::walk::RawFileStat;

verus! {

/// Added and removed lines of a line diff of `old` into `new`, as the
/// histogram algorithm of the diff library counts them.
pub uninterp spec fn histogram_line_counts(old: Seq<u8>, new: Seq<u8>) -> (u32, u32);

/// Line diff of two blobs.
/// Calls `gix::diff::blob::diff_with_slider_heuristics` with the histogram
/// algorithm on the interned lines of `old` and `new`, then
/// `count_additions` and `count_removals`. The contract names the result
/// and says nothing more of it; the library asserts fewer than `i32::MAX`
/// lines per side, and sizes its token estimate with `len * 20`.
#[verifier::external_body]
fn histogram_diff(old: &[u8], new: &[u8]) -> (r: (u32, u32))
    requires
        line_count(old@) < i32::MAX,
        line_count(new@) < i32::MAX,
        old@.len() * 20 <= usize::MAX,
        new@.len() * 20 <= usize::MAX,
    ensures
        r == histogram_line_counts(old@, new@),
{
    let input = gix::diff::blob::InternedInput::new(old, new);
    let diff = gix::diff::blob::diff_with_slider_heuristics(gix::diff::blob::Algorithm::Histogram, &input);
    (diff.count_additions(), diff.count_removals())
}

/// Both sides can go through the line diff.
pub open spec fn diffable(old: Seq<u8>, new: Seq<u8>) -> bool {
    &&& line_count(old) < i32::MAX
    &&& line_count(new) < i32::MAX
    &&& old.len() * 20 <= usize::MAX
    &&& new.len() * 20 <= usize::MAX
}

/// (adds, dels, binary) of a blob change; binary content has no lines.
pub open spec fn spec_line_stats(old: Seq<u8>, new: Seq<u8>) -> (u32, u32, bool) {
    if is_binary(old) || is_binary(new) {
        (0, 0, true)
    } else {
        let (a, d) = histogram_line_counts(old, new);
        (a, d, false)
    }
}

/// Added and deleted lines between two blob contents (an absent side is
/// empty); binary content counts no lines.
pub fn line_stats(old: &[u8], new: &[u8]) -> (r: (u32, u32, bool))
    requires
        !is_binary(old@) && !is_binary(new@) ==> diffable(old@, new@),
    ensures
        r == spec_line_stats(old@, new@),
{
    if looks_binary(old) || looks_binary(new) {
        return (0, 0, true);
    }
    let (adds, dels) = histogram_diff(old, new);
    (adds, dels, false)
}

/// What was read of one side of a changed entry.
#[derive(Debug, Clone, PartialEq, Eq)]
pub enum BlobSide {
    /// The object is a blob with these bytes.
    Blob(Vec<u8>),
    /// The object is not a blob (a submodule commit, a tree, a tag).
    NotBlob,
}

/// One change between the tree of a commit and the tree of its first parent.
#[derive(Debug, Clone, PartialEq, Eq)]
pub enum TreeChange {
    Addition { path: String, is_tree: bool, new: BlobSide },
    Deletion { path: String, is_tree: bool, old: BlobSide },
    Modification { path: String, is_tree: bool, old: BlobSide, new: BlobSide },
    /// A rename or copy to `path`, with both contents and the line counts
    /// of its content change, if any.
    Rewrite { path: String, is_tree: bool, old: BlobSide, new: BlobSide, stats: Option<(u32, u32)> },
}

/// Bytes of an optional side (absent or not a blob: empty).
pub open spec fn side_bytes(s: Option<BlobSide>) -> Seq<u8> {
    match s {
        Some(BlobSide::Blob(b)) => b@,
        _ => Seq::empty(),
    }
}

/// Content that counts as a touch without lines: not a blob, or binary.
pub open spec fn side_touch_only(s: BlobSide) -> bool {
    match s {
        BlobSide::Blob(b) => is_binary(b@),
        BlobSide::NotBlob => true,
    }
}

pub open spec fn side_not_blob(s: Option<BlobSide>) -> bool {
    s == Some(BlobSide::NotBlob)
}

/// The sides of a change can be measured without failing.
pub open spec fn side_stats_ok(old: Option<BlobSide>, new: Option<BlobSide>) -> bool {
    !is_binary(side_bytes(old)) && !is_binary(side_bytes(new)) ==> diffable(side_bytes(old), side_bytes(new))
}

/// (adds, dels, binary) of a blob change: a side that is not a blob makes
/// it a binary touch without lines.
pub open spec fn spec_blob_change(old: Option<BlobSide>, new: Option<BlobSide>) -> (u32, u32, bool) {
    if side_not_blob(old) || side_not_blob(new) {
        (0, 0, true)
    } else {
        spec_line_stats(side_bytes(old), side_bytes(new))
    }
}

/// A file stat as plain values: (path, adds, dels, binary).
pub type StatView = (Seq<char>, u32, u32, bool);

pub open spec fn stat_view(s: RawFileStat) -> StatView {
    (s.0@, s.1, s.2, s.3)
}

pub open spec fn change_ok(c: TreeChange) -> bool {
    match c {
        TreeChange::Addition { is_tree, new, .. } => !is_tree ==> side_stats_ok(None, Some(new)),
        TreeChange::Deletion { is_tree, old, .. } => !is_tree ==> side_stats_ok(Some(old), None),
        TreeChange::Modification { is_tree, old, new, .. } => !is_tree ==> side_stats_ok(
            Some(old),
            Some(new),
        ),
        TreeChange::Rewrite { .. } => true,
    }
}

/// The stat a change contributes: none for subtree entries.
pub open spec fn spec_change_stat(c: TreeChange) -> Option<StatView> {
    match c {
        TreeChange::Addition { path, is_tree, new } => if is_tree {
            None
        } else {
            let (a, d, b) = spec_blob_change(None, Some(new));
            Some((path@, a, d, b))
        },
        TreeChange::Deletion { path, is_tree, old } => if is_tree {
            None
        } else {
            let (a, d, b) = spec_blob_change(Some(old), None);
            Some((path@, a, d, b))
        },
        TreeChange::Modification { path, is_tree, old, new } => if is_tree {
            None
        } else {
            let (a, d, b) = spec_blob_change(Some(old), Some(new));
            Some((path@, a, d, b))
        },
        TreeChange::Rewrite { path, is_tree, old, new, stats } => if is_tree {
            None
        } else if side_touch_only(old) || side_touch_only(new) {
            Some((path@, 0, 0, true))
        } else {
            match stats {
                Some((a, d)) => Some((path@, a, d, false)),
                None => Some((path@, 0, 0, false)),
            }
        },
    }
}

/// The stats of a list of changes, in order.
pub open spec fn spec_change_stats(changes: Seq<TreeChange>) -> Seq<StatView>
    decreases changes.len(),
{
    if changes.len() == 0 {
        Seq::empty()
    } else {
        let prev = spec_change_stats(changes.drop_last());
        match spec_change_stat(changes.last()) {
            Some(s) => prev.push(s),
            None => prev,
        }
    }
}

fn side_is_not_blob(s: &BlobSide) -> (r: bool)
    ensures
        r == (*s == BlobSide::NotBlob),
{
    match s {
        BlobSide::NotBlob => true,
        BlobSide::Blob(_) => false,
    }
}

fn touch_only(s: &BlobSide) -> (r: bool)
    ensures
        r == side_touch_only(*s),
{
    match s {
        BlobSide::Blob(b) => looks_binary(b.as_slice()),
        BlobSide::NotBlob => true,
    }
}

/// (adds, dels, binary) of a change between two optional blob sides.
pub fn blob_change(old: Option<&BlobSide>, new: Option<&BlobSide>) -> (r: (u32, u32, bool))
    requires
        side_stats_ok(
            match old {
                Some(s) => Some(*s),
                None => None,
            },
            match new {
                Some(s) => Some(*s),
                None => None,
            },
        ),
    ensures
        r == spec_blob_change(
            match old {
                Some(s) => Some(*s),
                None => None,
            },
            match new {
                Some(s) => Some(*s),
                None => None,
            },
        ),
{
    let empty: Vec<u8> = Vec::new();
    let old_bytes: &[u8] = match old {
        Some(BlobSide::Blob(b)) => b.as_slice(),
        _ => empty.as_slice(),
    };
    let new_bytes: &[u8] = match new {
        Some(BlobSide::Blob(b)) => b.as_slice(),
        _ => empty.as_slice(),
    };
    let non_blob = match old {
        Some(s) => side_is_not_blob(s),
        None => false,
    } || match new {
        Some(s) => side_is_not_blob(s),
        None => false,
    };
    let (adds, dels, binary) = line_stats(old_bytes, new_bytes);
    if non_blob {
        (0, 0, true)
    } else {
        (adds, dels, binary)
    }
}

/// The stat one change contributes (`None` for subtree entries).
pub fn change_stat(c: &TreeChange) -> (r: Option<RawFileStat>)
    requires
        change_ok(*c),
    ensures
        match r {
            Some(s) => spec_change_stat(*c) == Some(stat_view(s)),
            None => spec_change_stat(*c) is None,
        },
{
    match c {
        TreeChange::Addition { path, is_tree, new } => {
            if *is_tree {
                return None;
            }
            let (a, d, b) = blob_change(None, Some(new));
            Some((path.clone(), a, d, b))
        },
        TreeChange::Deletion { path, is_tree, old } => {
            if *is_tree {
                return None;
            }
            let (a, d, b) = blob_change(Some(old), None);
            Some((path.clone(), a, d, b))
        },
        TreeChange::Modification { path, is_tree, old, new } => {
            if *is_tree {
                return None;
            }
            let (a, d, b) = blob_change(Some(old), Some(new));
            Some((path.clone(), a, d, b))
        },
        TreeChange::Rewrite { path, is_tree, old, new, stats } => {
            if *is_tree {
                return None;
            }
            if touch_only(old) || touch_only(new) {
                return Some((path.clone(), 0, 0, true));
            }
            match stats {
                Some((a, d)) => Some((path.clone(), *a, *d, false)),
                None => Some((path.clone(), 0, 0, false)),
            }
        },
    }
}

/// The file stats of a commit: none for a merge (two or more parents),
/// otherwise one per change that is not a subtree entry, in order.
pub fn commit_file_stats(n_parents: usize, changes: &Vec<TreeChange>) -> (r: Vec<RawFileStat>)
    requires
        n_parents <= 1 ==> forall|k: int| 0 <= k < changes@.len() ==> #[trigger] change_ok(changes@[k]),
    ensures
        n_parents > 1 ==> r@.len() == 0,
        n_parents <= 1 ==> r@.map_values(|s: RawFileStat| stat_view(s)) == spec_change_stats(changes@),
{
    let mut out: Vec<RawFileStat> = Vec::new();
    if n_parents > 1 {
        return out;
    }
    let mut k: usize = 0;
    while k < changes.len()
        invariant
            k <= changes@.len(),
            forall|q: int| 0 <= q < changes@.len() ==> #[trigger] change_ok(changes@[q]),
            out@.map_values(|s: RawFileStat| stat_view(s)) == spec_change_stats(changes@.take(k as int)),
        decreases changes@.len() - k,
    {
        proof {
            assert(changes@.take(k + 1).drop_last() =~= changes@.take(k as int));
        }
        let ghost before = out@;
        match change_stat(&changes[k]) {
            Some(s) => {
                out.push(s);
                assert(out@.map_values(|s: RawFileStat| stat_view(s)) =~= before.map_values(
                    |s: RawFileStat| stat_view(s),
                ).push(stat_view(out@[out@.len() - 1])));
            },
            None => {},
        }
        k = k + 1;
    }
    assert(changes@.take(k as int) =~= changes@);
    out
}

/// A binary stat is a touch: whatever the change, a stat marked binary
/// counts no added and no deleted lines.
pub proof fn lemma_binary_stats_count_no_lines(changes: Seq<TreeChange>)
    ensures
        forall|k: int|
            0 <= k < spec_change_stats(changes).len() && (#[trigger] spec_change_stats(changes)[k]).3 ==> spec_change_stats(
                changes,
            )[k].1 == 0 && spec_change_stats(changes)[k].2 == 0,
    decreases changes.len(),
{
    if changes.len() > 0 {
        lemma_binary_stats_count_no_lines(changes.drop_last());
        let prev = spec_change_stats(changes.drop_last());
        let cur = spec_change_stats(changes);
        match spec_change_stat(changes.last()) {
            Some(st) => {
                assert(st.3 ==> st.1 == 0 && st.2 == 0);
                assert(cur == prev.push(st));
                assert forall|k: int| 0 <= k < prev.len() implies cur[k] == prev[k] by {}
            },
            None => {},
        }
    }
}


/// A modification of two text blobs counts the lines of the diff from the
/// old content into the new one: its additions are what going from old to
/// new adds. From an empty old blob it counts as the addition of the new
/// one, and to an empty new blob as the deletion of the old one.
pub proof fn lemma_modification_counts_old_to_new(path: String, old: Vec<u8>, new: Vec<u8>)
    requires
        !is_binary(old@),
        !is_binary(new@),
    ensures
        spec_change_stat(
            (TreeChange::Modification { path, is_tree: false, old: BlobSide::Blob(old), new: BlobSide::Blob(new) }),
        ) == Some((path@, histogram_line_counts(old@, new@).0, histogram_line_counts(old@, new@).1, false)),
        old@.len() == 0 ==> spec_change_stat(
            (TreeChange::Modification { path, is_tree: false, old: BlobSide::Blob(old), new: BlobSide::Blob(new) }),
        ) == spec_change_stat((TreeChange::Addition { path, is_tree: false, new: BlobSide::Blob(new) })),
        new@.len() == 0 ==> spec_change_stat(
            (TreeChange::Modification { path, is_tree: false, old: BlobSide::Blob(old), new: BlobSide::Blob(new) }),
        ) == spec_change_stat((TreeChange::Deletion { path, is_tree: false, old: BlobSide::Blob(old) })),
        spec_change_stat((TreeChange::Addition { path, is_tree: false, new: BlobSide::Blob(new) })) == Some(
            (path@, histogram_line_counts(Seq::empty(), new@).0, histogram_line_counts(Seq::empty(), new@).1, false),
        ),
        spec_change_stat((TreeChange::Deletion { path, is_tree: false, old: BlobSide::Blob(old) })) == Some(
            (path@, histogram_line_counts(old@, Seq::empty()).0, histogram_line_counts(old@, Seq::empty()).1, false),
        ),
{
    assert(!is_binary(Seq::<u8>::empty()));
    if old@.len() == 0 {
        assert(old@ =~= Seq::<u8>::empty());
    }
    if new@.len() == 0 {
        assert(new@ =~= Seq::<u8>::empty());
    }
}


/// A change whose old or new side is not a blob (a submodule, a tree
/// entry) or is binary is a touch: no lines, marked binary, whatever its
/// kind; a subtree entry gives no stat.
pub proof fn lemma_touch_only_sides(path: String, old: BlobSide, new: BlobSide, stats: Option<(u32, u32)>)
    ensures
        (side_touch_only(old) || side_touch_only(new)) ==> spec_change_stat(
            (TreeChange::Modification { path, is_tree: false, old, new }),
        ) == Some((path@, 0u32, 0u32, true)),
        (side_touch_only(old) || side_touch_only(new)) ==> spec_change_stat(
            (TreeChange::Rewrite { path, is_tree: false, old, new, stats }),
        ) == Some((path@, 0u32, 0u32, true)),
        side_touch_only(new) ==> spec_change_stat((TreeChange::Addition { path, is_tree: false, new })) == Some(
            (path@, 0u32, 0u32, true),
        ),
        side_touch_only(old) ==> spec_change_stat((TreeChange::Deletion { path, is_tree: false, old })) == Some(
            (path@, 0u32, 0u32, true),
        ),
        spec_change_stat((TreeChange::Modification { path, is_tree: true, old, new })) is None,
        !side_touch_only(old) && !side_touch_only(new) ==> spec_change_stat(
            (TreeChange::Rewrite { path, is_tree: false, old, new, stats }),
        ) == Some(
            (path@, match stats {
                Some(st) => st.0,
                None => 0u32,
            }, match stats {
                Some(st) => st.1,
                None => 0u32,
            }, false),
        ),
{
}

} // verus!
