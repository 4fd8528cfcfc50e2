use gadv::engine::cache::{
    cache_envelope, cache_hit, cached_oids, hex_to_oid, merge_delta, oid_hex, plan_scan,
    resolve_delta, sort_newest_first, validate_cache, CacheFile, ScanPlan,
};
use gadv::engine::git::walk::ScanOutput;
use gadv::engine::model::{AuthorId, AuthorInfo, CommitRecord, FileId, FileStat, History, CACHE_FORMAT_VERSION};

fn oid(b: u8) -> [u8; 20] {
    [b; 20]
}

fn rec(o: u8, t: i64, author: u32, files: &[(u32, u32)]) -> CommitRecord {
    CommitRecord {
        oid: oid(o),
        time: t,
        author: AuthorId(author),
        n_parents: 1,
        files: files.iter().map(|&(f, a)| FileStat { file: FileId(f), adds: a, dels: 0, binary: false }).collect(),
    }
}

fn author(n: &str) -> AuthorInfo {
    AuthorInfo { name: n.to_string(), email: format!("{n}@x") }
}

fn cached() -> CacheFile {
    cache_envelope(
        &oid(2),
        History {
            commits: vec![rec(2, 20, 0, &[(0, 1)]), rec(1, 10, 1, &[(1, 2)])],
            authors: vec![author("ana"), author("beto")],
            paths: vec!["a.rs".into(), "b.rs".into()],
        },
    )
}

#[test]
fn oids_are_lower_case_hex() {
    let mut o = [0u8; 20];
    o[0] = 0xab;
    o[19] = 0x0f;
    let s = oid_hex(&o);
    assert_eq!(s.len(), 40);
    assert!(s.starts_with("ab00"));
    assert!(s.ends_with("0f"));
    assert_eq!(hex_to_oid(&s), Some(o));
}

#[test]
fn hex_reading_accepts_upper_case_and_refuses_junk() {
    assert_eq!(hex_to_oid(&"AB".repeat(20)), Some([0xab; 20]));
    assert_eq!(hex_to_oid("abc"), None);
    assert_eq!(hex_to_oid(&"zz".repeat(20)), None);
    assert_eq!(hex_to_oid(&format!("+0{}", "0".repeat(38))), None);
    assert_eq!(hex_to_oid(&format!("{}é", "a".repeat(38))), None);
    assert_eq!(hex_to_oid(&format!("é{}", "a".repeat(37))), None);
}

#[test]
fn envelope_round_trips_through_the_checks() {
    let cf = cached();
    assert_eq!(cf.format_version, CACHE_FORMAT_VERSION);
    assert_eq!(cf.commit_count, 2);
    assert_eq!(cf.head_oid, "02".repeat(20));
    let cf = validate_cache(cf).expect("envelope passes the checks");
    assert!(cache_hit(&cf, &oid(2)));
    assert!(!cache_hit(&cf, &oid(3)));
    assert_eq!(cached_oids(&cf), vec![oid(2), oid(1)]);
}

#[test]
fn wrong_version_or_count_is_refused() {
    let mut cf = cached();
    cf.format_version = 999;
    assert!(validate_cache(cf).is_none());
    let mut cf = cached();
    cf.commit_count = 5;
    assert!(validate_cache(cf).is_none());
    let mut cf = cached();
    cf.head_oid = "abc".into();
    assert!(validate_cache(cf).is_none());
}

#[test]
fn delta_of_one_commit_is_spliced_on_the_cache() {
    let walked = ScanOutput {
        records: vec![rec(3, 30, 0, &[(0, 5), (1, 1)])],
        authors: vec![author("cami")],
        paths: vec!["nuevo.txt".into(), "a.rs".into()],
        splice: Some(oid(2)),
    };
    let (h, n) = resolve_delta(cached(), walked).expect("splices at the cached head");
    assert_eq!(n, 1);
    assert_eq!(h.commits.len(), 3);
    assert_eq!(h.commits[0].oid, oid(3));
    assert_eq!(h.commits[0].author, AuthorId(2));
    assert_eq!(h.commits[0].files[0].file, FileId(2));
    assert_eq!(h.commits[0].files[1].file, FileId(0));
    assert_eq!(h.authors.len(), 3);
    assert_eq!(h.paths, vec!["a.rs".to_string(), "b.rs".to_string(), "nuevo.txt".to_string()]);
}

#[test]
fn splice_below_the_cached_head_rebuilds() {
    let walked = ScanOutput {
        records: vec![rec(3, 30, 0, &[])],
        authors: vec![author("ana")],
        paths: vec![],
        splice: Some(oid(1)),
    };
    assert!(resolve_delta(cached(), walked).is_none());
    let walked = ScanOutput { records: vec![], authors: vec![], paths: vec![], splice: None };
    assert!(resolve_delta(cached(), walked).is_none());
}

#[test]
fn merge_keeps_cached_tail_and_reuses_known_keys() {
    let walked = ScanOutput {
        records: vec![rec(3, 30, 0, &[(0, 1)])],
        authors: vec![author("beto")],
        paths: vec!["b.rs".into()],
        splice: Some(oid(1)),
    };
    let h = merge_delta(cached(), 1, walked);
    assert_eq!(h.commits.len(), 2);
    assert_eq!(h.commits[0].author, AuthorId(1));
    assert_eq!(h.commits[0].files[0].file, FileId(1));
    assert_eq!(h.commits[1].oid, oid(1));
    assert_eq!(h.authors.len(), 2);
    assert_eq!(h.paths.len(), 2);
}

#[test]
fn newest_first_is_stable() {
    let mut h = History {
        commits: vec![rec(1, 10, 0, &[]), rec(2, 30, 0, &[]), rec(3, 10, 0, &[]), rec(4, 20, 0, &[])],
        authors: vec![],
        paths: vec![],
    };
    sort_newest_first(&mut h);
    let order: Vec<u8> = h.commits.iter().map(|c| c.oid[0]).collect();
    assert_eq!(order, vec![2, 4, 1, 3]);
}

#[test]
fn scan_plan_follows_the_cache() {
    let cf = cached();
    assert_eq!(plan_scan(false, Some(&cf), &oid(2)), ScanPlan::Full { save: false });
    assert_eq!(plan_scan(true, None, &oid(2)), ScanPlan::Full { save: true });
    assert_eq!(plan_scan(true, Some(&cf), &oid(2)), ScanPlan::UseCache);
    assert_eq!(plan_scan(true, Some(&cf), &oid(9)), ScanPlan::WalkDelta);
}

#[test]
fn a_broken_cache_file_gives_a_full_scan_that_saves() {
    let mut cf = cached();
    cf.commit_count = 7;
    let kept = validate_cache(cf);
    assert!(kept.is_none());
    assert_eq!(plan_scan(true, kept.as_ref(), &oid(2)), ScanPlan::Full { save: true });
    let again = validate_cache(cached());
    assert_eq!(plan_scan(true, again.as_ref(), &oid(2)), ScanPlan::UseCache);
    assert_eq!(again.map(|c| c.records.len()), Some(2));
}

#[test]
fn hex_read_back_is_the_text_in_lower_case() {
    let text = "0aF9".repeat(10);
    let o = hex_to_oid(&text).expect("40 hex digits");
    assert_eq!(oid_hex(&o), text.to_ascii_lowercase());
}
