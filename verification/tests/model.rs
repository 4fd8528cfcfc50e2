use gadv::engine::model::{AuthorId, AuthorInfo, AuthorInterner, CommitRecord, FileId, History, PathInterner};

fn hist_with(counts: &[(u32, usize)]) -> History {
    let mut authors = Vec::new();
    let mut commits = Vec::new();
    for &(id, n) in counts {
        let author = AuthorId(id);
        authors.push(AuthorInfo { name: format!("a{id}"), email: String::new() });
        for _ in 0..n {
            commits.push(CommitRecord { oid: [0; 20], time: 0, author, n_parents: 1, files: Vec::new() });
        }
    }
    History { commits, authors, paths: Vec::new() }
}

#[test]
fn interner_dedups_by_name_and_email() {
    let mut it = AuthorInterner::default();
    let a = it.intern("Ana".into(), "ana@x".into());
    let b = it.intern("Ana".into(), "ana@x".into());
    let c = it.intern("Ana".into(), "ana@otro".into());
    assert_eq!(a, b);
    assert_ne!(a, c);
    assert_eq!(it.into_list().len(), 2);
}

#[test]
fn path_interner_dedups() {
    let mut it = PathInterner::default();
    assert_eq!(it.intern("a.rs"), it.intern("a.rs"));
    assert_ne!(it.intern("a.rs"), it.intern("b.rs"));
    assert_eq!(it.into_list().len(), 2);
}

#[test]
fn top_author_picks_max_and_merges_count() {
    let h = hist_with(&[(0, 2), (1, 5)]);
    let (n, a) = h.top_author().unwrap();
    assert_eq!((n, a.name.as_str()), (5, "a1"));

    let mut h2 = h;
    h2.commits[0].n_parents = 2;
    assert_eq!(h2.n_merges(), 1);
}

#[test]
fn interned_ids_are_dense_and_stable() {
    let mut it = PathInterner::default();
    assert_eq!(it.intern("x"), FileId(0));
    assert_eq!(it.intern("y"), FileId(1));
    assert_eq!(it.intern("x"), FileId(0));
    assert_eq!(it.intern("z"), FileId(2));
    assert_eq!(it.into_list(), vec!["x".to_string(), "y".to_string(), "z".to_string()]);
}

#[test]
fn top_author_of_empty_history_is_none() {
    let h = History::default();
    assert!(h.top_author().is_none());
    assert_eq!(h.n_merges(), 0);
}
