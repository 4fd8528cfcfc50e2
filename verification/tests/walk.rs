use gadv::engine::git::oid20;
use gadv::engine::git::walk::{intern_scan, CommitWalk, RawCommit, WalkStep};
use gadv::engine::model::{AuthorId, FileId};
use gadv::engine::EngineError;

fn id_of(b: u8) -> [u8; 20] {
    [b; 20]
}

/// Runs a walk over a small DAG given as (commit, parents).
fn walk(dag: &[(u8, Vec<u8>)], head: u8, max: u64, stop: Option<Vec<[u8; 20]>>) -> (Vec<u8>, Option<[u8; 20]>) {
    let mut w = CommitWalk::new(id_of(head), max, stop);
    let mut seen = Vec::new();
    loop {
        match w.next() {
            WalkStep::Visit(o) => {
                seen.push(o[0]);
                let parents = dag.iter().find(|(c, _)| *c == o[0]).map(|(_, p)| p.clone()).unwrap_or_default();
                w.visited(parents.into_iter().map(id_of).collect());
            }
            WalkStep::Done => break,
        }
    }
    (seen, w.splice())
}

fn diamond() -> Vec<(u8, Vec<u8>)> {
    vec![(4, vec![2, 3]), (3, vec![1]), (2, vec![1]), (1, vec![])]
}

#[test]
fn each_commit_is_visited_once() {
    let (seen, splice) = walk(&diamond(), 4, 50_000, None);
    assert_eq!(seen, vec![4, 2, 3, 1]);
    assert_eq!(splice, None);
}

#[test]
fn walk_respects_max_commits() {
    let (seen, _) = walk(&diamond(), 4, 2, None);
    assert_eq!(seen, vec![4, 2]);
}

#[test]
fn walk_stops_at_a_cached_commit() {
    let (seen, splice) = walk(&diamond(), 4, 50_000, Some(vec![id_of(2), id_of(1)]));
    assert_eq!(seen, vec![4]);
    assert_eq!(splice, Some(id_of(2)));
}

#[test]
fn object_ids_must_be_twenty_bytes() {
    assert_eq!(oid20(&[7u8; 20]).unwrap(), id_of(7));
    assert!(matches!(oid20(&[7u8; 32]), Err(EngineError::UnsupportedHash)));
}

#[test]
fn interning_a_walk_gives_dense_ids() {
    let raws = vec![
        RawCommit { oid: id_of(2), time: 20, name: "Ana".into(), email: "a@x".into(), n_parents: 1 },
        RawCommit { oid: id_of(1), time: 10, name: "Beto".into(), email: "b@x".into(), n_parents: 1 },
        RawCommit { oid: id_of(0), time: 5, name: "Ana".into(), email: "a@x".into(), n_parents: 0 },
    ];
    let files = vec![
        vec![("b.rs".to_string(), 1, 0, false)],
        vec![("a.rs".to_string(), 2, 1, false), ("b.rs".to_string(), 0, 3, false)],
        vec![],
    ];
    let out = intern_scan(raws, files, None);
    assert_eq!(out.records.len(), 3);
    assert_eq!(out.authors.len(), 2);
    assert_eq!(out.paths, vec!["b.rs".to_string(), "a.rs".to_string()]);
    assert_eq!(out.records[2].author, AuthorId(0));
    assert_eq!(out.records[1].files[0].file, FileId(1));
    assert_eq!(out.records[1].files[1].file, FileId(0));
    assert_eq!(out.records[1].files[1].dels, 3);
}

#[test]
fn delta_walk_reads_what_the_cache_lacks() {
    let dag = vec![(6, vec![5]), (5, vec![4]), (4, vec![3]), (3, vec![])];
    let (seen, splice) = walk(&dag, 6, 50_000, Some(vec![id_of(4), id_of(3)]));
    assert_eq!(seen, vec![6, 5]);
    assert_eq!(splice, Some(id_of(4)));
    let (all, _) = walk(&dag, 6, 50_000, None);
    assert_eq!(all, vec![6, 5, 4, 3]);
}
