use folder_differ::diff::{compare_trees, Diff, DiffType};
use folder_differ::store::FileStore;
use folder_differ::sync::{
    backup_file, bak_path, delete_file_with_backup, log_sync_action, perform_sync_action,
    plan_sync_actions, restore_file, rollback, run_sync_plan, SyncAction, SyncLog, SyncLogEntry,
    SyncState,
};

fn store_of(files: &[(&str, &[u8], Option<u64>)]) -> FileStore {
    let mut s = FileStore::new();
    for (path, content, mtime) in files {
        assert!(!s.contains_path(&path.to_string()));
        s.upsert(path.to_string(), content.to_vec(), *mtime);
    }
    s
}

fn content_of(store: &FileStore, path: &str) -> Option<Vec<u8>> {
    store.get(&path.to_string()).map(|f| f.content.clone())
}

#[test]
fn plan_follows_the_mirror_policy() {
    let diffs = vec![
        Diff { path: "l.txt".to_string(), diff_type: DiffType::OnlyInLeft },
        Diff { path: "r.txt".to_string(), diff_type: DiffType::OnlyInRight },
        Diff {
            path: "d.txt".to_string(),
            diff_type: DiffType::Different {
                left_size: 1,
                right_size: 2,
                left_time: None,
                right_time: None,
            },
        },
    ];
    let actions = plan_sync_actions(&diffs, "mirror");
    assert_eq!(actions.len(), 3);
    assert!(matches!(&actions[0], SyncAction::CopyLeftToRight(p) if p == "l.txt"));
    assert!(matches!(&actions[1], SyncAction::CopyRightToLeft(p) if p == "r.txt"));
    assert!(matches!(&actions[2], SyncAction::CopyLeftToRight(p) if p == "d.txt"));
}

#[test]
fn plan_is_pure_and_repeatable() {
    let diffs = vec![Diff { path: "a".to_string(), diff_type: DiffType::OnlyInLeft }];
    let first = plan_sync_actions(&diffs, "mirror");
    let second = plan_sync_actions(&diffs, "mirror");
    assert_eq!(first.len(), second.len());
    assert!(matches!(&first[0], SyncAction::CopyLeftToRight(p) if p == "a"));
    assert!(matches!(&second[0], SyncAction::CopyLeftToRight(p) if p == "a"));
}

#[test]
fn log_records_every_attempt() {
    let mut log = SyncLog::default();
    let action = SyncAction::NoOp("a.txt".to_string());
    log_sync_action(&mut log, &action, "no operation", 42);
    assert_eq!(log.entries.len(), 1);
    assert_eq!(log.entries[0].timestamp, 42);
    assert_eq!(log.entries[0].details, "no operation");
    assert!(matches!(&log.entries[0].action, SyncAction::NoOp(p) if p == "a.txt"));
}

#[test]
fn backup_copies_to_bak_sibling() {
    let mut store = store_of(&[("a.txt", b"data", Some(1))]);
    let backup = backup_file(&mut store, &"a.txt".to_string());
    assert_eq!(backup, Some("a.txt.bak".to_string()));
    assert_eq!(content_of(&store, "a.txt"), Some(b"data".to_vec()));
    assert_eq!(content_of(&store, "a.txt.bak"), Some(b"data".to_vec()));
}

#[test]
fn backup_of_missing_file_is_none() {
    let mut store = store_of(&[]);
    let backup = backup_file(&mut store, &"a.txt".to_string());
    assert_eq!(backup, None);
    assert_eq!(store.len(), 0);
}

#[test]
fn bak_path_appends_the_suffix() {
    assert_eq!(bak_path(&"dir/a.txt".to_string()), "dir/a.txt.bak");
    assert_eq!(bak_path(&"noext".to_string()), "noext.bak");
}

#[test]
fn delete_keeps_a_backup() {
    let mut store = store_of(&[("a.txt", b"data", Some(1))]);
    let backup = delete_file_with_backup(&mut store, &"a.txt".to_string());
    assert_eq!(backup, Some("a.txt.bak".to_string()));
    assert_eq!(content_of(&store, "a.txt"), None);
    assert_eq!(content_of(&store, "a.txt.bak"), Some(b"data".to_vec()));
}

#[test]
fn restore_brings_the_backup_back() {
    let mut store = store_of(&[("a.txt.bak", b"old", Some(1))]);
    restore_file(&mut store, &"a.txt.bak".to_string(), &"a.txt".to_string());
    assert_eq!(content_of(&store, "a.txt"), Some(b"old".to_vec()));
}

#[test]
fn copy_overwrites_after_backing_up() {
    let mut left = store_of(&[("a.txt", b"new", Some(2))]);
    let mut right = store_of(&[("a.txt", b"old", Some(1))]);
    let mut log = SyncLog::default();
    let action = SyncAction::CopyLeftToRight("a.txt".to_string());
    perform_sync_action(&action, &mut left, &mut right, &mut log, 5);
    assert_eq!(content_of(&right, "a.txt"), Some(b"new".to_vec()));
    assert_eq!(content_of(&right, "a.txt.bak"), Some(b"old".to_vec()));
    assert_eq!(log.entries.len(), 1);
    assert_eq!(log.entries[0].details, "copied; backup: a.txt.bak");
}

#[test]
fn failed_copy_is_logged_and_harmless() {
    let mut left = store_of(&[]);
    let mut right = store_of(&[]);
    let mut log = SyncLog::default();
    let action = SyncAction::CopyLeftToRight("ghost.txt".to_string());
    perform_sync_action(&action, &mut left, &mut right, &mut log, 5);
    assert_eq!(right.len(), 0);
    assert_eq!(log.entries.len(), 1);
    assert_eq!(log.entries[0].details, "copy failed: source missing");
}

#[test]
fn failed_delete_is_logged_and_harmless() {
    let mut left = store_of(&[]);
    let mut right = store_of(&[]);
    let mut log = SyncLog::default();
    let action = SyncAction::DeleteLeft("ghost.txt".to_string());
    perform_sync_action(&action, &mut left, &mut right, &mut log, 5);
    assert_eq!(left.len(), 0);
    assert_eq!(log.entries.len(), 1);
    assert_eq!(log.entries[0].details, "delete failed: file missing");
}

#[test]
fn batch_continues_past_failures() {
    let mut left = store_of(&[("a.txt", b"aa", Some(1))]);
    let mut right = store_of(&[]);
    let mut log = SyncLog::default();
    let actions = vec![
        SyncAction::CopyLeftToRight("ghost.txt".to_string()),
        SyncAction::CopyLeftToRight("a.txt".to_string()),
    ];
    run_sync_plan(&actions, &mut left, &mut right, &mut log, 9);
    assert_eq!(log.entries.len(), 2);
    assert_eq!(content_of(&right, "a.txt"), Some(b"aa".to_vec()));
}

#[test]
fn scenario_copy_then_rollback_removes_destination() {
    // One CopyLeftToRight with no prior destination: after rollback the
    // destination is gone and no backup lingers.
    let mut left = store_of(&[("a.txt", b"hello", Some(1))]);
    let mut right = store_of(&[]);
    let mut log = SyncLog::default();
    let diffs = compare_trees(&left, &right, false);
    assert_eq!(diffs.len(), 1);
    let actions = plan_sync_actions(&diffs, "mirror");
    assert_eq!(actions.len(), 1);
    assert!(matches!(&actions[0], SyncAction::CopyLeftToRight(p) if p == "a.txt"));
    run_sync_plan(&actions, &mut left, &mut right, &mut log, 11);
    assert_eq!(content_of(&right, "a.txt"), Some(b"hello".to_vec()));
    let unrecoverable = rollback(&log, &mut left, &mut right);
    assert!(unrecoverable.is_empty());
    assert_eq!(content_of(&right, "a.txt"), None);
    assert_eq!(content_of(&right, "a.txt.bak"), None);
    assert_eq!(right.len(), 0);
    assert_eq!(content_of(&left, "a.txt"), Some(b"hello".to_vec()));
}

#[test]
fn sync_then_rollback_restores_both_roots() {
    // Copies over an existing file, a fresh copy, and a delete: rollback
    // restores both roots byte for byte.
    let mut left = store_of(&[("a.txt", b"new a", Some(2)), ("b.txt", b"b here", Some(3))]);
    let mut right = store_of(&[("a.txt", b"old a", Some(1)), ("c.txt", b"c here", Some(4))]);
    let mut log = SyncLog::default();
    let actions = vec![
        SyncAction::CopyLeftToRight("a.txt".to_string()),
        SyncAction::CopyLeftToRight("b.txt".to_string()),
        SyncAction::DeleteRight("c.txt".to_string()),
    ];
    run_sync_plan(&actions, &mut left, &mut right, &mut log, 20);
    assert_eq!(content_of(&right, "a.txt"), Some(b"new a".to_vec()));
    assert_eq!(content_of(&right, "b.txt"), Some(b"b here".to_vec()));
    assert_eq!(content_of(&right, "c.txt"), None);
    let unrecoverable = rollback(&log, &mut left, &mut right);
    assert!(unrecoverable.is_empty());
    assert_eq!(content_of(&left, "a.txt"), Some(b"new a".to_vec()));
    assert_eq!(content_of(&left, "b.txt"), Some(b"b here".to_vec()));
    assert_eq!(content_of(&right, "a.txt"), Some(b"old a".to_vec()));
    assert_eq!(content_of(&right, "b.txt"), None);
    assert_eq!(content_of(&right, "c.txt"), Some(b"c here".to_vec()));
    assert_eq!(content_of(&right, "a.txt.bak"), None);
    assert_eq!(content_of(&right, "b.txt.bak"), None);
    assert_eq!(content_of(&right, "c.txt.bak"), None);
    assert_eq!(left.len(), 2);
    assert_eq!(right.len(), 2);
}

#[test]
fn unrestorable_delete_is_surfaced() {
    // A delete entry whose backup is gone cannot be undone; rollback
    // reports the path instead of pretending.
    let mut left = store_of(&[]);
    let mut right = store_of(&[]);
    let log = SyncLog {
        entries: vec![SyncLogEntry {
            action: SyncAction::DeleteLeft("lost.txt".to_string()),
            timestamp: 1,
            details: "deleted; backup: lost.txt.bak".to_string(),
        }],
    };
    let unrecoverable = rollback(&log, &mut left, &mut right);
    assert_eq!(unrecoverable, vec!["lost.txt".to_string()]);
}

#[test]
fn conflict_and_noop_only_log() {
    let mut left = store_of(&[("a.txt", b"x", Some(1))]);
    let mut right = store_of(&[]);
    let mut log = SyncLog::default();
    perform_sync_action(
        &SyncAction::Conflict("a.txt".to_string()),
        &mut left,
        &mut right,
        &mut log,
        2,
    );
    perform_sync_action(
        &SyncAction::NoOp("a.txt".to_string()),
        &mut left,
        &mut right,
        &mut log,
        3,
    );
    assert_eq!(left.len(), 1);
    assert_eq!(right.len(), 0);
    assert_eq!(log.entries.len(), 2);
    assert_eq!(log.entries[0].details, "conflict: manual resolution required");
    assert_eq!(log.entries[1].details, "no operation");
}

#[test]
fn default_sync_state_is_unsynced() {
    let state = SyncState::default();
    assert!(state.last_synced.is_none());
}
