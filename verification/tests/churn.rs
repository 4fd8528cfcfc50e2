use gadv::engine::metrics::churn::churn;
use gadv::engine::metrics::Window;
use gadv::engine::model::{AuthorId, CommitRecord, FileId, FileStat, History};

fn record(time: i64, files: Vec<FileStat>) -> CommitRecord {
    CommitRecord { oid: [0; 20], time, author: AuthorId(0), n_parents: 1, files }
}

fn stat(file: u32, adds: u32, dels: u32) -> FileStat {
    FileStat { file: FileId(file), adds, dels, binary: false }
}

#[test]
fn sums_adds_and_dels_per_file() {
    let h = History {
        commits: vec![record(100, vec![stat(0, 10, 2), stat(1, 1, 0)]), record(200, vec![stat(0, 4, 0)])],
        authors: Vec::new(),
        paths: Vec::new(),
    };
    let rows = churn(&h, Window::all());
    assert_eq!(rows.len(), 2);
    assert_eq!(rows[0].file, FileId(0), "12+4=16 gana");
    assert_eq!((rows[0].adds, rows[0].dels, rows[0].touches), (14, 2, 2));
    assert_eq!(rows[0].last_time, 200);
}

#[test]
fn window_filters_by_time() {
    let h = History {
        commits: vec![record(50, vec![stat(0, 100, 0)]), record(150, vec![stat(1, 5, 0)])],
        authors: Vec::new(),
        paths: Vec::new(),
    };
    let rows = churn(&h, Window { from: Some(100) });
    assert_eq!(rows.len(), 1);
    assert_eq!(rows[0].file, FileId(1));
}

#[test]
fn binary_only_files_flagged() {
    let h = History {
        commits: vec![record(1, vec![FileStat { file: FileId(7), adds: 0, dels: 0, binary: true }])],
        authors: Vec::new(),
        paths: Vec::new(),
    };
    let rows = churn(&h, Window::all());
    assert!(rows[0].binary);
    assert_eq!(rows[0].churn(), 0);
}

#[test]
fn equal_churn_goes_by_file_id() {
    let h = History {
        commits: vec![record(1, vec![stat(5, 3, 0), stat(2, 1, 2)])],
        authors: Vec::new(),
        paths: Vec::new(),
    };
    let rows = churn(&h, Window::all());
    assert_eq!(rows.iter().map(|r| r.file.0).collect::<Vec<_>>(), vec![2, 5]);
}

#[test]
fn last_days_window_starts_days_before_now() {
    let w = Window::last_days(2, 1_000_000);
    assert_eq!(w.from, Some(1_000_000 - 2 * 86_400));
    assert!(w.includes(1_000_000 - 2 * 86_400));
    assert!(!w.includes(1_000_000 - 2 * 86_400 - 1));
    assert!(Window::all().includes(i64::MIN));
}
