use gadv::engine::metrics::coupling::{coupling_counts, find_named_path, MAX_FILES_TOUCHED};
use gadv::engine::metrics::hotspots::{default_ignores, ignore_mask, is_ignored, rank_hotspots};
use gadv::engine::metrics::ownership::ownership_shares;
use gadv::engine::metrics::risk::repo_risk;
use gadv::engine::metrics::Window;
use gadv::engine::model::{AuthorId, CommitRecord, FileId, FileStat, History};

fn touch(t: i64, author: u32, files: Vec<(u32, u32, u32)>) -> CommitRecord {
    CommitRecord {
        oid: [0; 20],
        time: t,
        author: AuthorId(author),
        n_parents: 1,
        files: files
            .into_iter()
            .map(|(f, a, d)| FileStat { file: FileId(f), adds: a, dels: d, binary: false })
            .collect(),
    }
}

fn hist(commits: Vec<CommitRecord>, paths: &[&str]) -> History {
    History { commits, authors: vec![], paths: paths.iter().map(|p| p.to_string()).collect() }
}

fn ones(t: i64, ids: &[u32]) -> CommitRecord {
    touch(t, 0, ids.iter().map(|i| (*i, 1, 0)).collect())
}

#[test]
fn always_together_pair_is_detected() {
    let h = hist(
        vec![ones(1, &[0, 1]), ones(2, &[0, 1]), ones(3, &[0, 1]), ones(4, &[0, 2])],
        &["a.rs", "b.rs", "c.rs"],
    );
    let edges = coupling_counts(&h, Window::all(), &vec![false, false, false]);
    assert_eq!(edges.len(), 1, "a-b reaches 3; a-c only 1");
    assert_eq!((edges[0].a, edges[0].b), (FileId(0), FileId(1)));
    assert_eq!((edges[0].cooc, edges[0].touches_a, edges[0].touches_b), (3, 4, 3));
}

#[test]
fn ignored_and_unknown_paths_form_no_pairs() {
    let h = hist(vec![ones(1, &[0, 1, 9]), ones(2, &[1, 0, 9]), ones(3, &[0, 1, 9])], &["a.rs", "Cargo.lock"]);
    let mask = ignore_mask(&h.paths, &[]);
    assert_eq!(mask, vec![false, true]);
    assert!(coupling_counts(&h, Window::all(), &mask).is_empty());
    let edges = coupling_counts(&h, Window::all(), &vec![false, false]);
    assert_eq!(edges.len(), 1);
    assert_eq!((edges[0].a.0, edges[0].b.0, edges[0].cooc), (0, 1, 3));
}

#[test]
fn mega_commits_count_for_nothing() {
    let n = MAX_FILES_TOUCHED as u32 + 1;
    let all: Vec<u32> = (0..n).collect();
    let h = hist(vec![ones(1, &all), ones(2, &all), ones(3, &all)], &[]);
    let mask = vec![false; n as usize];
    assert!(coupling_counts(&h, Window::all(), &mask).is_empty());
    let some: Vec<u32> = (0..MAX_FILES_TOUCHED as u32).collect();
    let h2 = hist(vec![ones(1, &some), ones(2, &some), ones(3, &some)], &[]);
    assert_eq!(coupling_counts(&h2, Window::all(), &mask).len(), 200 * 199 / 2);
}

#[test]
fn default_ignores_filter_lockfiles_and_vendored_trees() {
    assert_eq!(default_ignores().len(), 11);
    assert!(is_ignored("Cargo.lock", &[]));
    assert!(is_ignored("web/node_modules/x.js", &[]));
    assert!(is_ignored("app.min.js", &[]));
    assert!(!is_ignored("src/main.rs", &[]));
    assert!(is_ignored("docs/notes.md", &["docs/".to_string()]));
    assert!(!is_ignored("docs/notes.md", &["doc/x".to_string()]));
    assert!(is_ignored("ñandú/vendor/x", &[]));
}

#[test]
fn dust_and_monolith_lose_to_hotspot() {
    let mut commits = Vec::new();
    for t in 0..100 {
        let ids: Vec<u32> = if t < 90 { vec![0, 2] } else { vec![2] };
        commits.push(ones(t, &ids));
    }
    let h = hist(commits, &["f0.rs", "f1.rs", "f2.rs"]);
    let ranks = rank_hotspots(&h, Window::all(), &vec![false, false, false], &vec![50, 5000, 4000], 10);
    assert_eq!(ranks.len(), 2, "no churn, no candidate");
    assert_eq!(ranks[0].file, FileId(2));
    assert_eq!((ranks[0].churn, ranks[0].loc, ranks[0].churn_rank, ranks[0].loc_rank), (100, 4000, 2, 2));
    assert_eq!((ranks[1].file, ranks[1].churn_rank, ranks[1].loc_rank), (FileId(0), 1, 1));
}

#[test]
fn deleted_files_are_not_hotspots() {
    let h = hist(vec![ones(0, &[0]), ones(1, &[0])], &["f0.rs"]);
    assert!(rank_hotspots(&h, Window::all(), &vec![false], &vec![0], 5).is_empty(), "loc 0 = deleted");
}

#[test]
fn ignores_filter_lockfiles() {
    let h = hist(vec![ones(0, &[0]), ones(1, &[0]), ones(2, &[0])], &["f0.rs"]);
    let mask = ignore_mask(&h.paths, &[]);
    assert_eq!(rank_hotspots(&h, Window::all(), &mask, &vec![100], 5).len(), 1, "f0.rs is not ignorable");
    let lock = hist(vec![ones(0, &[0]), ones(1, &[0]), ones(2, &[0])], &["Cargo.lock"]);
    let mask = ignore_mask(&lock.paths, &[]);
    assert!(rank_hotspots(&lock, Window::all(), &mask, &vec![100], 5).is_empty());
}

#[test]
fn mega_commits_leave_the_hotspots() {
    let n = MAX_FILES_TOUCHED as u32 + 1;
    let all: Vec<u32> = (0..n).collect();
    let mut commits = vec![ones(1, &all), ones(2, &all)];
    commits.push(ones(3, &[1]));
    let h = hist(commits, &[]);
    let locs = vec![100u32; n as usize];
    let ranks = rank_hotspots(&h, Window::all(), &vec![false; n as usize], &locs, 10);
    assert_eq!(ranks.len(), 1, "only the small commit counts");
    assert_eq!((ranks[0].file, ranks[0].churn), (FileId(1), 1));
    let some: Vec<u32> = (0..MAX_FILES_TOUCHED as u32).collect();
    let h2 = hist(vec![ones(1, &some)], &[]);
    assert_eq!(rank_hotspots(&h2, Window::all(), &vec![false; n as usize], &locs, 10).len(), 10);
}

#[test]
fn top_k_cuts_the_candidates() {
    let h = hist(vec![ones(0, &[0, 1, 2]), ones(1, &[0, 1]), ones(2, &[0])], &["a", "b", "c"]);
    let ranks = rank_hotspots(&h, Window::all(), &vec![false; 3], &vec![10, 10, 10], 2);
    assert_eq!(ranks.iter().map(|r| r.file.0).collect::<Vec<_>>(), vec![0, 1]);
    assert_eq!((ranks[0].churn_rank, ranks[1].churn_rank), (2, 1));
    assert_eq!((ranks[0].loc_rank, ranks[1].loc_rank), (1, 2));
}

#[test]
fn sole_author_is_bus_factor_one() {
    let h = hist(vec![touch(1, 0, vec![(0, 100, 0)]), touch(2, 0, vec![(0, 10, 5)])], &[]);
    let rows = ownership_shares(&h, Window::all());
    assert_eq!(rows.len(), 1);
    assert_eq!(rows[0].shares[0].0, AuthorId(0), "owner");
    assert_eq!(rows[0].kept_total, 110);
    assert_eq!(rows[0].shares, vec![(AuthorId(0), 110)]);
}

#[test]
fn dominant_author_still_bus_factor_one() {
    let h = hist(vec![touch(1, 0, vec![(0, 70, 0)]), touch(2, 1, vec![(0, 30, 0)])], &[]);
    let rows = ownership_shares(&h, Window::all());
    assert_eq!(rows[0].shares[0].0, AuthorId(0), "owner");
    assert_eq!(rows[0].shares, vec![(AuthorId(0), 70), (AuthorId(1), 30)]);
    assert_eq!(rows[0].kept_total, 100);
}

#[test]
fn even_split_is_bus_factor_two() {
    let h = hist(vec![touch(1, 0, vec![(0, 50, 0)]), touch(2, 1, vec![(0, 50, 0)])], &[]);
    let rows = ownership_shares(&h, Window::all());
    assert_eq!(rows[0].shares, vec![(AuthorId(0), 50), (AuthorId(1), 50)]);
    assert_eq!(rows[0].kept_total, 100);
}

#[test]
fn wiped_out_file_is_dead() {
    let h = hist(vec![touch(1, 0, vec![(0, 10, 0)]), touch(2, 1, vec![(0, 0, 10)])], &[]);
    let rows = ownership_shares(&h, Window::all());
    assert_eq!(rows.len(), 1);
    assert_eq!(rows[0].kept_total, 0);
    assert!(rows[0].shares.is_empty());
}

#[test]
fn others_deletions_reduce_kept_lines() {
    let h = hist(
        vec![touch(1, 0, vec![(0, 50, 0)]), touch(2, 1, vec![(0, 20, 15)]), touch(3, 0, vec![(1, 5, 0)])],
        &[],
    );
    let rows = ownership_shares(&h, Window::all());
    assert_eq!(rows.len(), 2);
    assert_eq!(rows[0].shares, vec![(AuthorId(0), 35), (AuthorId(1), 20)]);
    assert_eq!(rows[1].shares, vec![(AuthorId(0), 5)]);
}

#[test]
fn repo_risk_counts_sizable_single_owner_files() {
    let rows = vec![(100u32, 1usize), (120, 1), (10, 1), (80, 2)];
    assert_eq!(repo_risk(&rows, 50), (2, 3));
    assert_eq!(repo_risk(&rows, 110), (1, 1));
    assert_eq!(repo_risk(&[], 0), (0, 0));
}

#[test]
fn repo_risk_counts_modules_with_owner() {
    let h = hist(vec![touch(1, 0, vec![(0, 100, 0), (1, 60, 0), (1, 60, 0)])], &[]);
    let rows = ownership_shares(&h, Window::all());
    let pairs: Vec<(u32, usize)> = rows.iter().map(|r| (r.kept_total, r.shares.len())).collect();
    assert_eq!(pairs, vec![(100, 1), (120, 1)]);
    assert_eq!(repo_risk(&pairs, 50), (2, 2));
    assert_eq!(repo_risk(&pairs, 110), (1, 1));
}

#[test]
fn neighbors_target_names_a_path_by_its_end() {
    let paths = vec!["src/a.rs".to_string(), "lib/b.rs".to_string(), "b.rs".to_string()];
    assert_eq!(find_named_path(&paths, "b.rs"), Some(1));
    assert_eq!(find_named_path(&paths, "src/a.rs"), Some(0));
    assert_eq!(find_named_path(&paths, "c.rs"), None);
    assert_eq!(find_named_path(&paths, ""), Some(0));
}
