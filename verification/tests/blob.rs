use gadv::engine::git::blob::{blob_loc, count_lines, looks_binary};
use gadv::engine::git::diff::{commit_file_stats, line_stats, BlobSide, TreeChange};

#[test]
fn counts_lines_with_and_without_trailing_newline() {
    assert_eq!(count_lines(b""), 0);
    assert_eq!(count_lines(b"a\nb\n"), 2);
    assert_eq!(count_lines(b"a\nb"), 2);
    assert_eq!(count_lines(b"single"), 1);
}

#[test]
fn nul_byte_marks_binary() {
    assert!(looks_binary(b"ab\0cd"));
    assert!(!looks_binary(b"plain text\n"));
    assert_eq!(blob_loc(b"ab\0cd\n"), 0);
    assert_eq!(blob_loc(b"x\ny\nz"), 3);
}

#[test]
fn line_stats_counts_added_and_removed_lines() {
    assert_eq!(line_stats(b"a\n", b"a\nb\n"), (1, 0, false));
    assert_eq!(line_stats(b"a\nb\nc\n", b"a\nc\n"), (0, 1, false));
    assert_eq!(line_stats(b"", b"x\ny\n"), (2, 0, false));
    assert_eq!(line_stats(b"a\0", b"b"), (0, 0, true));
}

#[test]
fn merges_get_no_file_stats() {
    let changes = vec![TreeChange::Addition { path: "a.rs".into(), is_tree: false, new: BlobSide::Blob(b"x\n".to_vec()) }];
    assert!(commit_file_stats(2, &changes).is_empty());
    let stats = commit_file_stats(1, &changes);
    assert_eq!(stats, vec![("a.rs".to_string(), 1, 0, false)]);
}

#[test]
fn trees_are_skipped_and_submodules_are_binary_touches() {
    let changes = vec![
        TreeChange::Addition { path: "dir".into(), is_tree: true, new: BlobSide::NotBlob },
        TreeChange::Modification { path: "sub".into(), is_tree: false, old: BlobSide::NotBlob, new: BlobSide::NotBlob },
        TreeChange::Deletion { path: "gone.rs".into(), is_tree: false, old: BlobSide::Blob(b"1\n2\n".to_vec()) },
        TreeChange::Rewrite {
            path: "new.rs".into(),
            is_tree: false,
            old: BlobSide::Blob(b"a\n".to_vec()),
            new: BlobSide::Blob(b"a\nb\n".to_vec()),
            stats: Some((3, 1)),
        },
        TreeChange::Rewrite {
            path: "logo.png".into(),
            is_tree: false,
            old: BlobSide::Blob(b"\x89PNG\0".to_vec()),
            new: BlobSide::Blob(b"\x89PNG\0\0".to_vec()),
            stats: Some((1, 1)),
        },
        TreeChange::Rewrite { path: "sub2".into(), is_tree: false, old: BlobSide::NotBlob, new: BlobSide::NotBlob, stats: None },
    ];
    let stats = commit_file_stats(1, &changes);
    assert_eq!(
        stats,
        vec![
            ("sub".to_string(), 0, 0, true),
            ("gone.rs".to_string(), 0, 2, false),
            ("new.rs".to_string(), 3, 1, false),
            ("logo.png".to_string(), 0, 0, true),
            ("sub2".to_string(), 0, 0, true),
        ]
    );
}
