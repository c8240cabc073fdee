use folder_differ::diff::{
    compare_trees, diff_snapshots, resolve_pending, DiffType, PendingCompare, Verdict,
};
use folder_differ::snapshot::{FileMeta, Snapshot};
use folder_differ::store::FileStore;

fn store_of(files: &[(&str, &[u8], Option<u64>)]) -> FileStore {
    let mut s = FileStore::new();
    for (path, content, mtime) in files {
        assert!(!s.contains_path(&path.to_string()));
        s.upsert(path.to_string(), content.to_vec(), *mtime);
    }
    s
}

#[test]
fn test_identical_dirs() {
    let left = store_of(&[("a.txt", b"hello", Some(1))]);
    let right = store_of(&[("a.txt", b"hello", Some(1))]);
    let diffs = compare_trees(&left, &right, false);
    assert!(diffs.is_empty(), "No diffs expected for identical dirs");
}

#[test]
fn test_file_only_in_left() {
    let left = store_of(&[("a.txt", b"hello", Some(1))]);
    let right = store_of(&[]);
    let diffs = compare_trees(&left, &right, false);
    assert_eq!(diffs.len(), 1);
    assert!(matches!(diffs[0].diff_type, DiffType::OnlyInLeft));
}

#[test]
fn test_file_content_diff() {
    let left = store_of(&[("a.txt", b"hello", Some(1))]);
    let right = store_of(&[("a.txt", b"world", Some(2))]);
    let diffs = compare_trees(&left, &right, false);
    assert_eq!(diffs.len(), 1);
    assert!(matches!(diffs[0].diff_type, DiffType::Different { .. }));
}

#[test]
fn integration_identical_dirs() {
    let left = store_of(&[("a.txt", b"hello", Some(7))]);
    let right = store_of(&[("a.txt", b"hello", Some(7))]);
    let diffs = compare_trees(&left, &right, false);
    assert!(diffs.is_empty(), "No diffs expected for identical dirs");
}

#[test]
fn integration_file_only_in_left() {
    let left = store_of(&[("a.txt", b"hello", Some(7))]);
    let right = store_of(&[]);
    let diffs = compare_trees(&left, &right, false);
    assert_eq!(diffs.len(), 1);
    assert!(matches!(diffs[0].diff_type, DiffType::OnlyInLeft));
}

#[test]
fn scenario_same_content_empty_diff() {
    // Identical single file on both sides, timestamps equal: empty list.
    let left = store_of(&[("a.txt", b"hello", Some(10))]);
    let right = store_of(&[("a.txt", b"hello", Some(10))]);
    let diffs = compare_trees(&left, &right, false);
    assert_eq!(diffs.len(), 0);
}

#[test]
fn scenario_only_in_left_names_the_path() {
    let left = store_of(&[("a.txt", b"hello", Some(10))]);
    let right = store_of(&[]);
    let diffs = compare_trees(&left, &right, false);
    assert_eq!(diffs.len(), 1);
    assert_eq!(diffs[0].path, "a.txt");
    assert!(matches!(diffs[0].diff_type, DiffType::OnlyInLeft));
}

#[test]
fn scenario_size_mismatch_reports_both_sizes() {
    // "hello" is 5 bytes, "world!" is 6: one Different diff, sizes 5 and 6.
    let left = store_of(&[("a.txt", b"hello", Some(1))]);
    let right = store_of(&[("a.txt", b"world!", Some(1))]);
    let diffs = compare_trees(&left, &right, false);
    assert_eq!(diffs.len(), 1);
    assert_eq!(diffs[0].path, "a.txt");
    match diffs[0].diff_type {
        DiffType::Different { left_size, right_size, .. } => {
            assert_eq!(left_size, 5);
            assert_eq!(right_size, 6);
        }
        _ => panic!("expected a Different diff"),
    }
}

#[test]
fn only_in_right_is_reported() {
    let left = store_of(&[]);
    let right = store_of(&[("b.txt", b"data", Some(3))]);
    let diffs = compare_trees(&left, &right, false);
    assert_eq!(diffs.len(), 1);
    assert_eq!(diffs[0].path, "b.txt");
    assert!(matches!(diffs[0].diff_type, DiffType::OnlyInRight));
}

#[test]
fn equal_times_skip_content_comparison() {
    // Same size, same timestamp, different content: the documented
    // metadata heuristic treats the pair as identical.
    let left = store_of(&[("a.txt", b"aaaa", Some(5))]);
    let right = store_of(&[("a.txt", b"bbbb", Some(5))]);
    let diffs = compare_trees(&left, &right, false);
    assert_eq!(diffs.len(), 0);
}

#[test]
fn absent_times_on_both_sides_count_as_equal() {
    let left = store_of(&[("a.txt", b"hello", None)]);
    let right = store_of(&[("a.txt", b"hello", None)]);
    let diffs = compare_trees(&left, &right, false);
    assert_eq!(diffs.len(), 0);
}

#[test]
fn time_mismatch_with_equal_content_is_not_a_diff() {
    let left = store_of(&[("a.txt", b"hello", Some(1))]);
    let right = store_of(&[("a.txt", b"hello", Some(2))]);
    let diffs = compare_trees(&left, &right, false);
    assert_eq!(diffs.len(), 0);
}

#[test]
fn time_present_on_one_side_triggers_content_comparison() {
    let left = store_of(&[("a.txt", b"hello", Some(1))]);
    let right = store_of(&[("a.txt", b"jello", None)]);
    let diffs = compare_trees(&left, &right, false);
    assert_eq!(diffs.len(), 1);
    assert!(matches!(diffs[0].diff_type, DiffType::Different { .. }));
}

#[test]
fn diff_engine_is_deterministic_across_runs() {
    let left = store_of(&[
        ("a.txt", b"hello", Some(1)),
        ("b.txt", b"same", Some(2)),
        ("c.txt", b"left only", Some(3)),
    ]);
    let right = store_of(&[
        ("a.txt", b"jello", Some(9)),
        ("b.txt", b"same", Some(2)),
        ("d.txt", b"right only", Some(4)),
    ]);
    let first = compare_trees(&left, &right, false);
    let second = compare_trees(&left, &right, false);
    assert_eq!(first.len(), second.len());
    for (a, b) in first.iter().zip(second.iter()) {
        assert_eq!(a.path, b.path);
        match (&a.diff_type, &b.diff_type) {
            (DiffType::OnlyInLeft, DiffType::OnlyInLeft) => {}
            (DiffType::OnlyInRight, DiffType::OnlyInRight) => {}
            (
                DiffType::Different { left_size: ls1, right_size: rs1, left_time: lt1, right_time: rt1 },
                DiffType::Different { left_size: ls2, right_size: rs2, left_time: lt2, right_time: rt2 },
            ) => {
                assert_eq!(ls1, ls2);
                assert_eq!(rs1, rs2);
                assert_eq!(lt1, lt2);
                assert_eq!(rt1, rt2);
            }
            _ => panic!("diff kinds differ between runs"),
        }
    }
}

#[test]
fn each_path_appears_in_at_most_one_diff() {
    let left = store_of(&[
        ("a.txt", b"one", Some(1)),
        ("b.txt", b"two2", Some(2)),
        ("c.txt", b"three", Some(3)),
    ]);
    let right = store_of(&[
        ("b.txt", b"tw02", Some(9)),
        ("c.txt", b"trois", Some(3)),
        ("d.txt", b"four", Some(4)),
    ]);
    let diffs = compare_trees(&left, &right, false);
    for i in 0..diffs.len() {
        for j in (i + 1)..diffs.len() {
            assert_ne!(diffs[i].path, diffs[j].path);
        }
    }
}

#[test]
fn snapshot_lookup_finds_records() {
    let mut snap = Snapshot::new();
    assert!(!snap.contains_path(&"a".to_string()));
    snap.insert("a".to_string(), FileMeta { size: 1, mtime: None });
    assert!(snap.contains_path(&"a".to_string()));
    let meta = snap.lookup(&"a".to_string()).unwrap();
    assert_eq!(meta.size, 1);
    assert_eq!(meta.mtime, None);
    assert_eq!(snap.len(), 1);
    assert!(snap.lookup(&"b".to_string()).is_none());
}

#[test]
fn metadata_phase_splits_certain_and_ambiguous() {
    let mut left = Snapshot::new();
    left.insert("size.txt".to_string(), FileMeta { size: 3, mtime: Some(1) });
    left.insert("time.txt".to_string(), FileMeta { size: 4, mtime: Some(1) });
    left.insert("same.txt".to_string(), FileMeta { size: 5, mtime: Some(1) });
    let mut right = Snapshot::new();
    right.insert("size.txt".to_string(), FileMeta { size: 9, mtime: Some(1) });
    right.insert("time.txt".to_string(), FileMeta { size: 4, mtime: Some(2) });
    right.insert("same.txt".to_string(), FileMeta { size: 5, mtime: Some(1) });
    let (diffs, pending) = diff_snapshots(&left, &right);
    assert_eq!(diffs.len(), 1);
    assert_eq!(diffs[0].path, "size.txt");
    assert!(matches!(diffs[0].diff_type, DiffType::Different { .. }));
    assert_eq!(pending.len(), 1);
    assert_eq!(pending[0].path, "time.txt");
    assert_eq!(pending[0].left_size, 4);
    assert_eq!(pending[0].right_size, 4);
    assert_eq!(pending[0].left_time, Some(1));
    assert_eq!(pending[0].right_time, Some(2));
}

#[test]
fn unreadable_verdict_is_conservatively_different() {
    // A comparison that could not be completed still yields a Different
    // diff: stale data is surfaced, not missed.
    let pending = vec![PendingCompare {
        path: "a.txt".to_string(),
        left_size: 4,
        right_size: 4,
        left_time: Some(1),
        right_time: Some(2),
    }];
    let verdicts = vec![Verdict::Unreadable];
    let diffs = resolve_pending(&pending, &verdicts);
    assert_eq!(diffs.len(), 1);
    assert_eq!(diffs[0].path, "a.txt");
    assert!(matches!(diffs[0].diff_type, DiffType::Different { .. }));
}

#[test]
fn same_verdict_resolves_to_no_diff() {
    let pending = vec![PendingCompare {
        path: "a.txt".to_string(),
        left_size: 4,
        right_size: 4,
        left_time: Some(1),
        right_time: Some(2),
    }];
    let verdicts = vec![Verdict::Same];
    let diffs = resolve_pending(&pending, &verdicts);
    assert_eq!(diffs.len(), 0);
}
