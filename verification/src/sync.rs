//! Synchronization: planning, execution with mandatory backups, logging,
//! and reverse-order rollback.
//!
//! The executor and the rollback engine mutate in-memory file stores; the
//! surrounding application mirrors each mutation onto the real filesystem.
//! Every destructive step first copies the doomed file to a `.bak`-suffixed
//! sibling, and the rollback engine consumes those backups in reverse append
//! order of the log.

use vstd::prelude::*;
use vstd::string::StringExecFns;
use crate::diff::{Diff, DiffType, DiffV};
use crate::store::{FileStore, FileV, lemma_store_map_at};

verus! {

/// The filesystem mutation chosen to resolve one diff.
#[derive(Debug, Clone)]
pub enum SyncAction {
    CopyLeftToRight(String),
    CopyRightToLeft(String),
    DeleteLeft(String),
    DeleteRight(String),
    Conflict(String),
    NoOp(String),
}

/// Mathematical image of one sync action.
pub ghost enum ActionV {
    CopyLeftToRight(Seq<char>),
    CopyRightToLeft(Seq<char>),
    DeleteLeft(Seq<char>),
    DeleteRight(Seq<char>),
    Conflict(Seq<char>),
    NoOp(Seq<char>),
}

impl View for SyncAction {
    type V = ActionV;

    open spec fn view(&self) -> ActionV {
        match self {
            SyncAction::CopyLeftToRight(p) => ActionV::CopyLeftToRight(p@),
            SyncAction::CopyRightToLeft(p) => ActionV::CopyRightToLeft(p@),
            SyncAction::DeleteLeft(p) => ActionV::DeleteLeft(p@),
            SyncAction::DeleteRight(p) => ActionV::DeleteRight(p@),
            SyncAction::Conflict(p) => ActionV::Conflict(p@),
            SyncAction::NoOp(p) => ActionV::NoOp(p@),
        }
    }
}

/// The relative path an action works on.
pub open spec fn action_path(a: ActionV) -> Seq<char> {
    match a {
        ActionV::CopyLeftToRight(p) => p,
        ActionV::CopyRightToLeft(p) => p,
        ActionV::DeleteLeft(p) => p,
        ActionV::DeleteRight(p) => p,
        ActionV::Conflict(p) => p,
        ActionV::NoOp(p) => p,
    }
}

/// One log line: the action attempted, when, and a free-text outcome.
#[derive(Debug)]
pub struct SyncLogEntry {
    pub action: SyncAction,
    pub timestamp: u64,
    pub details: String,
}

/// Mathematical image of one log entry.
pub ghost struct LogEntryV {
    pub action: ActionV,
    pub timestamp: u64,
    pub details: Seq<char>,
}

impl View for SyncLogEntry {
    type V = LogEntryV;

    open spec fn view(&self) -> LogEntryV {
        LogEntryV { action: self.action@, timestamp: self.timestamp, details: self.details@ }
    }
}

/// Append-only record of every attempted action, in attempt order.
#[derive(Debug)]
pub struct SyncLog {
    pub entries: Vec<SyncLogEntry>,
}

impl View for SyncLog {
    type V = Seq<LogEntryV>;

    open spec fn view(&self) -> Seq<LogEntryV> {
        self.entries@.map_values(|e: SyncLogEntry| e@)
    }
}

impl Default for SyncLog {
    /// An empty log.
    fn default() -> (log: SyncLog)
        ensures
            log@ == Seq::<LogEntryV>::empty(),
    {
        let log = SyncLog { entries: Vec::new() };
        proof {
            assert(log@ =~= Seq::<LogEntryV>::empty());
        }
        log
    }
}

/// Persistent marker of the last completed synchronization.
#[derive(Debug, Clone)]
pub struct SyncState {
    pub last_synced: Option<u64>,
}

impl Default for SyncState {
    /// No synchronization recorded yet.
    fn default() -> (s: SyncState)
        ensures
            s.last_synced is None,
    {
        SyncState { last_synced: None }
    }
}

/// The backup sibling of a path: the path with the fixed suffix appended.
pub open spec fn bak_path_of(p: Seq<char>) -> Seq<char> {
    p + ".bak"@
}

/// Compute the backup sibling of a path.
pub fn bak_path(path: &String) -> (r: String)
    ensures
        r@ == bak_path_of(path@),
{
    let mut r = path.clone();
    r.append(".bak");
    r
}

/// A backup path never equals its own path.
pub proof fn lemma_bak_path_ne(p: Seq<char>)
    ensures
        bak_path_of(p) != p,
{
    reveal_strlit(".bak");
    assert(bak_path_of(p).len() == p.len() + 4);
}

/// Backup naming is injective: distinct paths get distinct backups.
pub proof fn lemma_bak_path_injective(p: Seq<char>, q: Seq<char>)
    requires
        bak_path_of(p) == bak_path_of(q),
    ensures
        p == q,
{
    reveal_strlit(".bak");
    assert(bak_path_of(p).len() == p.len() + 4);
    assert(bak_path_of(q).len() == q.len() + 4);
    assert(p =~= bak_path_of(p).subrange(0, p.len() as int));
    assert(q =~= bak_path_of(q).subrange(0, q.len() as int));
}

/// One root's files, as the executor sees them: a map from path to file.
pub type FsV = Map<Seq<char>, FileV>;

/// Back up a path before mutation: where the path holds a file, the backup
/// sibling gets a copy; where it holds none, nothing changes.
pub open spec fn backup_spec(m: FsV, p: Seq<char>) -> FsV {
    if m.contains_key(p) {
        m.insert(bak_path_of(p), m[p])
    } else {
        m
    }
}

/// Delete a path with a prior backup.
pub open spec fn delete_spec(m: FsV, p: Seq<char>) -> FsV {
    if m.contains_key(p) {
        m.insert(bak_path_of(p), m[p]).remove(p)
    } else {
        m
    }
}

/// Undo a copy into `m` at path `p`: restore the backup where one exists,
/// remove the copied file where none does (no file preceded it).
pub open spec fn undo_copy_spec(m: FsV, p: Seq<char>) -> FsV {
    if m.contains_key(bak_path_of(p)) {
        m.insert(p, m[bak_path_of(p)]).remove(bak_path_of(p))
    } else {
        m.remove(p)
    }
}

/// Undo a delete in `m` at path `p`: restore the backup where one exists;
/// where none does, nothing can be restored.
pub open spec fn undo_delete_spec(m: FsV, p: Seq<char>) -> FsV {
    if m.contains_key(bak_path_of(p)) {
        m.insert(p, m[bak_path_of(p)]).remove(bak_path_of(p))
    } else {
        m
    }
}

/// What one executed action does to the two roots.  A copy backs up the
/// destination, then copies where the source exists; a delete backs up and
/// removes; `Conflict` and `NoOp` touch nothing.
pub open spec fn apply_spec(a: ActionV, l: FsV, r: FsV) -> (FsV, FsV) {
    match a {
        ActionV::CopyLeftToRight(p) => {
            let r1 = backup_spec(r, p);
            (l, if l.contains_key(p) { r1.insert(p, l[p]) } else { r1 })
        },
        ActionV::CopyRightToLeft(p) => {
            let l1 = backup_spec(l, p);
            (if r.contains_key(p) { l1.insert(p, r[p]) } else { l1 }, r)
        },
        ActionV::DeleteLeft(p) => (delete_spec(l, p), r),
        ActionV::DeleteRight(p) => (l, delete_spec(r, p)),
        ActionV::Conflict(_) => (l, r),
        ActionV::NoOp(_) => (l, r),
    }
}

/// What undoing one logged action does to the two roots.
pub open spec fn undo_spec(a: ActionV, l: FsV, r: FsV) -> (FsV, FsV) {
    match a {
        ActionV::CopyLeftToRight(p) => (l, undo_copy_spec(r, p)),
        ActionV::CopyRightToLeft(p) => (undo_copy_spec(l, p), r),
        ActionV::DeleteLeft(p) => (undo_delete_spec(l, p), r),
        ActionV::DeleteRight(p) => (l, undo_delete_spec(r, p)),
        ActionV::Conflict(_) => (l, r),
        ActionV::NoOp(_) => (l, r),
    }
}

/// Execute a batch of actions, first to last.
pub open spec fn apply_all(acts: Seq<ActionV>, l: FsV, r: FsV) -> (FsV, FsV)
    decreases acts.len(),
{
    if acts.len() == 0 {
        (l, r)
    } else {
        let next = apply_spec(acts[0], l, r);
        apply_all(acts.drop_first(), next.0, next.1)
    }
}

/// Undo a batch of executed actions in reverse order: the later actions are
/// undone first, then the first one.
pub open spec fn undo_all(acts: Seq<ActionV>, l: FsV, r: FsV) -> (FsV, FsV)
    decreases acts.len(),
{
    if acts.len() == 0 {
        (l, r)
    } else {
        let rest = undo_all(acts.drop_first(), l, r);
        undo_spec(acts[0], rest.0, rest.1)
    }
}

/// The free-text outcome an attempted action gets in the log, determined by
/// the states the action ran against.
pub open spec fn detail_for(a: ActionV, l: FsV, r: FsV) -> Seq<char> {
    match a {
        ActionV::CopyLeftToRight(p) => if !l.contains_key(p) {
            "copy failed: source missing"@
        } else if r.contains_key(p) {
            "copied; backup: "@ + bak_path_of(p)
        } else {
            "copied; no previous file"@
        },
        ActionV::CopyRightToLeft(p) => if !r.contains_key(p) {
            "copy failed: source missing"@
        } else if l.contains_key(p) {
            "copied; backup: "@ + bak_path_of(p)
        } else {
            "copied; no previous file"@
        },
        ActionV::DeleteLeft(p) => if l.contains_key(p) {
            "deleted; backup: "@ + bak_path_of(p)
        } else {
            "delete failed: file missing"@
        },
        ActionV::DeleteRight(p) => if r.contains_key(p) {
            "deleted; backup: "@ + bak_path_of(p)
        } else {
            "delete failed: file missing"@
        },
        ActionV::Conflict(_) => "conflict: manual resolution required"@,
        ActionV::NoOp(_) => "no operation"@,
    }
}

/// A copy of an action (the paths are copied; the view is unchanged).
fn clone_action(a: &SyncAction) -> (r: SyncAction)
    ensures
        r@ == a@,
{
    match a {
        SyncAction::CopyLeftToRight(p) => SyncAction::CopyLeftToRight(p.clone()),
        SyncAction::CopyRightToLeft(p) => SyncAction::CopyRightToLeft(p.clone()),
        SyncAction::DeleteLeft(p) => SyncAction::DeleteLeft(p.clone()),
        SyncAction::DeleteRight(p) => SyncAction::DeleteRight(p.clone()),
        SyncAction::Conflict(p) => SyncAction::Conflict(p.clone()),
        SyncAction::NoOp(p) => SyncAction::NoOp(p.clone()),
    }
}

/// A copy of a byte content.
fn clone_bytes(v: &Vec<u8>) -> (r: Vec<u8>)
    ensures
        r@ == v@,
{
    let mut r: Vec<u8> = Vec::new();
    let n = v.len();
    proof {
        assert(r@ =~= v@.subrange(0, 0));
    }
    for i in 0..n
        invariant
            n == v@.len(),
            r@ == v@.subrange(0, i as int),
    {
        r.push(v[i]);
        proof {
            assert(r@ =~= v@.subrange(0, i + 1 as int));
        }
    }
    proof {
        assert(v@.subrange(0, n as int) =~= v@);
    }
    r
}

/// The mirror-left-onto-right policy, per diff: a missing right file is
/// copied over, a missing left file is copied back, and a content difference
/// is resolved in the left side's favor.
pub open spec fn action_for(d: DiffV) -> ActionV {
    match d.diff_type {
        DiffType::OnlyInLeft => ActionV::CopyLeftToRight(d.path),
        DiffType::OnlyInRight => ActionV::CopyRightToLeft(d.path),
        DiffType::Different { .. } => ActionV::CopyLeftToRight(d.path),
    }
}

/// The whole plan of a diff list: one action per diff, in diff order.
pub open spec fn plan_spec(ds: Seq<DiffV>) -> Seq<ActionV> {
    ds.map_values(|dv: DiffV| action_for(dv))
}

/// Plan one action per diff under the synchronization policy.  A pure
/// function: no side effects, and the same diffs always yield the same plan.
/// `_sync_mode` names the policy; one policy is implemented today.
pub fn plan_sync_actions(diffs: &[Diff], _sync_mode: &str) -> (actions: Vec<SyncAction>)
    ensures
        actions@.map_values(|a: SyncAction| a@) == plan_spec(diffs@.map_values(|d: Diff| d@)),
{
    let ghost target = plan_spec(diffs@.map_values(|d: Diff| d@));
    let mut actions: Vec<SyncAction> = Vec::new();
    let n = diffs.len();
    proof {
        assert(actions@.map_values(|a: SyncAction| a@) =~= target.subrange(0, 0));
    }
    for i in 0..n
        invariant
            n == diffs@.len(),
            target == diffs@.map_values(|d: Diff| d@).map_values(|dv: DiffV| action_for(dv)),
            actions@.map_values(|a: SyncAction| a@) == target.subrange(0, i as int),
    {
        let d = &diffs[i];
        let a = match &d.diff_type {
            DiffType::OnlyInLeft => SyncAction::CopyLeftToRight(d.path.clone()),
            DiffType::OnlyInRight => SyncAction::CopyRightToLeft(d.path.clone()),
            DiffType::Different { .. } => SyncAction::CopyLeftToRight(d.path.clone()),
        };
        let ghost av = a@;
        let ghost pre_map = actions@.map_values(|x: SyncAction| x@);
        proof {
            assert(diffs@.map_values(|d: Diff| d@)[i as int] == diffs@[i as int]@);
            assert(target[i as int] == action_for(diffs@[i as int]@));
            assert(av == target[i as int]);
        }
        actions.push(a);
        proof {
            assert(actions@.map_values(|x: SyncAction| x@) =~= pre_map.push(av));
            assert(target.subrange(0, i + 1 as int) =~= target.subrange(0, i as int).push(
                target[i as int],
            ));
            assert(actions@.map_values(|x: SyncAction| x@) == target.subrange(0, i + 1 as int));
        }
    }
    proof {
        assert(target.subrange(0, n as int) =~= target);
    }
    actions
}

/// Append one attempted action to the log.
pub fn log_sync_action(log: &mut SyncLog, action: &SyncAction, details: &str, timestamp: u64)
    ensures
        final(log)@ == old(log)@.push(
            LogEntryV { action: action@, timestamp, details: details@ },
        ),
{
    let entry = SyncLogEntry { action: clone_action(action), timestamp, details: details.to_owned() };
    let ghost pre = log@;
    log.entries.push(entry);
    proof {
        assert(log@ =~= pre.push(LogEntryV { action: action@, timestamp, details: details@ }));
    }
}

/// Back up the file at a path before it is overwritten or deleted: copy it
/// to its `.bak` sibling.  Returns the backup path, or `None` where the path
/// held no file (then nothing was changed and no backup is needed).
pub fn backup_file(store: &mut FileStore, path: &String) -> (backup: Option<String>)
    requires
        old(store).wf(),
    ensures
        final(store).wf(),
        final(store).as_map() == backup_spec(old(store).as_map(), path@),
        backup matches Some(b) ==> b@ == bak_path_of(path@) && old(store).as_map().contains_key(
            path@,
        ),
        backup is None ==> !old(store).as_map().contains_key(path@),
{
    match store.find(path) {
        Some(i) => {
            proof {
                lemma_store_map_at(store@, i as int);
            }
            let content = clone_bytes(&store.file_at(i).content);
            let mtime = store.file_at(i).mtime;
            let b = bak_path(path);
            store.upsert(b.clone(), content, mtime);
            Some(b)
        },
        None => None,
    }
}

/// Restore a file from its backup: copy the backup's content back over the
/// original path.  The backup file itself stays until the caller removes it.
pub fn restore_file(store: &mut FileStore, backup_path: &String, orig_path: &String)
    requires
        old(store).wf(),
        old(store).as_map().contains_key(backup_path@),
    ensures
        final(store).wf(),
        final(store).as_map() == old(store).as_map().insert(
            orig_path@,
            old(store).as_map()[backup_path@],
        ),
{
    let i = match store.find(backup_path) {
        Some(i) => i,
        None => {
            proof {
                assert(false);
            }
            0
        },
    };
    proof {
        lemma_store_map_at(store@, i as int);
    }
    let content = clone_bytes(&store.file_at(i).content);
    let mtime = store.file_at(i).mtime;
    store.upsert(orig_path.clone(), content, mtime);
}

/// Delete the file at a path, after backing it up.  Returns the backup path,
/// or `None` where the path held no file (nothing was deleted).
pub fn delete_file_with_backup(store: &mut FileStore, path: &String) -> (backup: Option<String>)
    requires
        old(store).wf(),
    ensures
        final(store).wf(),
        final(store).as_map() == delete_spec(old(store).as_map(), path@),
        backup matches Some(b) ==> b@ == bak_path_of(path@) && old(store).as_map().contains_key(
            path@,
        ),
        backup is None ==> !old(store).as_map().contains_key(path@),
{
    let backup = backup_file(store, path);
    if backup.is_some() {
        proof {
            lemma_bak_path_ne(path@);
        }
        store.remove(path);
    }
    backup
}

/// Attempt one action against the two roots, and append exactly one log
/// entry, success or failure.  Copies back up the destination before
/// overwriting; deletes back up before removing; a missing source or a
/// missing file to delete is logged as a failure and changes nothing more.
pub fn perform_sync_action(
    action: &SyncAction,
    left: &mut FileStore,
    right: &mut FileStore,
    log: &mut SyncLog,
    timestamp: u64,
)
    requires
        old(left).wf(),
        old(right).wf(),
    ensures
        final(left).wf(),
        final(right).wf(),
        final(left).as_map() == apply_spec(
            action@,
            old(left).as_map(),
            old(right).as_map(),
        ).0,
        final(right).as_map() == apply_spec(
            action@,
            old(left).as_map(),
            old(right).as_map(),
        ).1,
        final(log)@ == old(log)@.push(
            LogEntryV {
                action: action@,
                timestamp,
                details: detail_for(action@, old(left).as_map(), old(right).as_map()),
            },
        ),
{
    match action {
        SyncAction::CopyLeftToRight(rel) => {
            let backup = backup_file(right, rel);
            match left.get(rel) {
                Some(src) => {
                    let content = clone_bytes(&src.content);
                    let mtime = src.mtime;
                    right.upsert(rel.clone(), content, mtime);
                    let details = match &backup {
                        Some(b) => "copied; backup: ".to_owned().concat(b.as_str()),
                        None => "copied; no previous file".to_owned(),
                    };
                    log_sync_action(log, action, details.as_str(), timestamp);
                },
                None => {
                    log_sync_action(log, action, "copy failed: source missing", timestamp);
                },
            }
        },
        SyncAction::CopyRightToLeft(rel) => {
            let backup = backup_file(left, rel);
            match right.get(rel) {
                Some(src) => {
                    let content = clone_bytes(&src.content);
                    let mtime = src.mtime;
                    left.upsert(rel.clone(), content, mtime);
                    let details = match &backup {
                        Some(b) => "copied; backup: ".to_owned().concat(b.as_str()),
                        None => "copied; no previous file".to_owned(),
                    };
                    log_sync_action(log, action, details.as_str(), timestamp);
                },
                None => {
                    log_sync_action(log, action, "copy failed: source missing", timestamp);
                },
            }
        },
        SyncAction::DeleteLeft(rel) => {
            let backup = delete_file_with_backup(left, rel);
            match &backup {
                Some(b) => {
                    let details = "deleted; backup: ".to_owned().concat(b.as_str());
                    log_sync_action(log, action, details.as_str(), timestamp);
                },
                None => {
                    log_sync_action(log, action, "delete failed: file missing", timestamp);
                },
            }
        },
        SyncAction::DeleteRight(rel) => {
            let backup = delete_file_with_backup(right, rel);
            match &backup {
                Some(b) => {
                    let details = "deleted; backup: ".to_owned().concat(b.as_str());
                    log_sync_action(log, action, details.as_str(), timestamp);
                },
                None => {
                    log_sync_action(log, action, "delete failed: file missing", timestamp);
                },
            }
        },
        SyncAction::Conflict(_) => {
            log_sync_action(log, action, "conflict: manual resolution required", timestamp);
        },
        SyncAction::NoOp(_) => {
            log_sync_action(log, action, "no operation", timestamp);
        },
    }
}

/// Executing one more action at the end of a batch is executing the batch,
/// then that action.
pub proof fn lemma_apply_all_snoc(acts: Seq<ActionV>, a: ActionV, l: FsV, r: FsV)
    ensures
        apply_all(acts.push(a), l, r) == apply_spec(
            a,
            apply_all(acts, l, r).0,
            apply_all(acts, l, r).1,
        ),
    decreases acts.len(),
{
    let s = acts.push(a);
    if acts.len() == 0 {
        assert(s[0] == a);
        assert(s.drop_first() =~= Seq::<ActionV>::empty());
        let x = apply_spec(a, l, r);
        assert(apply_all(s, l, r) == apply_all(s.drop_first(), x.0, x.1));
        assert(apply_all(s.drop_first(), x.0, x.1) == (x.0, x.1));
        assert(apply_all(acts, l, r) == (l, r));
    } else {
        assert(s[0] == acts[0]);
        assert(s.drop_first() =~= acts.drop_first().push(a));
        let next = apply_spec(acts[0], l, r);
        lemma_apply_all_snoc(acts.drop_first(), a, next.0, next.1);
        assert(apply_all(s, l, r) == apply_all(s.drop_first(), next.0, next.1));
        assert(apply_all(acts, l, r) == apply_all(acts.drop_first(), next.0, next.1));
    }
}

/// The log a batch run writes: one entry per action, in order, each judged
/// against the states its action ran against.
pub open spec fn run_log_spec(acts: Seq<ActionV>, l: FsV, r: FsV, timestamp: u64) -> Seq<
    LogEntryV,
>
    decreases acts.len(),
{
    if acts.len() == 0 {
        Seq::empty()
    } else {
        let entry = LogEntryV { action: acts[0], timestamp, details: detail_for(acts[0], l, r) };
        let next = apply_spec(acts[0], l, r);
        seq![entry] + run_log_spec(acts.drop_first(), next.0, next.1, timestamp)
    }
}

/// One more action at the end of a batch appends one more log entry, judged
/// against the states the earlier actions left behind.
pub proof fn lemma_run_log_snoc(acts: Seq<ActionV>, a: ActionV, l: FsV, r: FsV, timestamp: u64)
    ensures
        run_log_spec(acts.push(a), l, r, timestamp) == run_log_spec(acts, l, r, timestamp).push(
            LogEntryV {
                action: a,
                timestamp,
                details: detail_for(a, apply_all(acts, l, r).0, apply_all(acts, l, r).1),
            },
        ),
    decreases acts.len(),
{
    let s = acts.push(a);
    if acts.len() == 0 {
        assert(s[0] == a);
        assert(s.drop_first() =~= Seq::<ActionV>::empty());
        let e = LogEntryV { action: a, timestamp, details: detail_for(a, l, r) };
        let next = apply_spec(a, l, r);
        assert(run_log_spec(s, l, r, timestamp) == seq![e] + run_log_spec(
            s.drop_first(),
            next.0,
            next.1,
            timestamp,
        ));
        assert(run_log_spec(s.drop_first(), next.0, next.1, timestamp) == Seq::<
            LogEntryV,
        >::empty());
        assert(run_log_spec(s, l, r, timestamp) =~= run_log_spec(acts, l, r, timestamp).push(e));
    } else {
        assert(s[0] == acts[0]);
        assert(s.drop_first() =~= acts.drop_first().push(a));
        let next = apply_spec(acts[0], l, r);
        lemma_run_log_snoc(acts.drop_first(), a, next.0, next.1, timestamp);
        assert(apply_all(acts, l, r) == apply_all(acts.drop_first(), next.0, next.1));
        assert(run_log_spec(s, l, r, timestamp) =~= run_log_spec(acts, l, r, timestamp).push(
            LogEntryV {
                action: a,
                timestamp,
                details: detail_for(a, apply_all(acts, l, r).0, apply_all(acts, l, r).1),
            },
        ));
    }
}

/// The actions a batch run's log records are the batch's actions.
pub proof fn lemma_run_log_actions(acts: Seq<ActionV>, l: FsV, r: FsV, timestamp: u64)
    ensures
        log_actions(run_log_spec(acts, l, r, timestamp)) == acts,
    decreases acts.len(),
{
    if acts.len() > 0 {
        let next = apply_spec(acts[0], l, r);
        lemma_run_log_actions(acts.drop_first(), next.0, next.1, timestamp);
        let lg = run_log_spec(acts, l, r, timestamp);
        let rest = run_log_spec(acts.drop_first(), next.0, next.1, timestamp);
        let entry = LogEntryV { action: acts[0], timestamp, details: detail_for(acts[0], l, r) };
        assert(lg == seq![entry] + rest);
        assert(lg.len() == acts.len());
        assert forall|k: int| 0 <= k < lg.len() implies (#[trigger] log_actions(lg)[k])
            == acts[k] by {
            assert(log_actions(lg)[k] == lg[k].action);
            if k == 0 {
                assert(lg[0] == entry);
            } else {
                assert(lg[k] == rest[k - 1]);
                assert(log_actions(rest)[k - 1] == rest[k - 1].action);
                assert(log_actions(rest)[k - 1] == acts.drop_first()[k - 1]);
                assert(acts.drop_first()[k - 1] == acts[k]);
            }
        }
        assert(log_actions(lg) =~= acts);
    } else {
        assert(log_actions(run_log_spec(acts, l, r, timestamp)) =~= acts);
    }
}

/// Attempt every action of a plan, in order, appending one log entry per
/// action.  A single action's failure is recorded and the batch continues:
/// a batch sync always completes, and the log is the record of what
/// happened.
pub fn run_sync_plan(
    actions: &Vec<SyncAction>,
    left: &mut FileStore,
    right: &mut FileStore,
    log: &mut SyncLog,
    timestamp: u64,
)
    requires
        old(left).wf(),
        old(right).wf(),
    ensures
        final(left).wf(),
        final(right).wf(),
        final(left).as_map() == apply_all(
            actions@.map_values(|a: SyncAction| a@),
            old(left).as_map(),
            old(right).as_map(),
        ).0,
        final(right).as_map() == apply_all(
            actions@.map_values(|a: SyncAction| a@),
            old(left).as_map(),
            old(right).as_map(),
        ).1,
        final(log)@ == old(log)@ + run_log_spec(
            actions@.map_values(|a: SyncAction| a@),
            old(left).as_map(),
            old(right).as_map(),
            timestamp,
        ),
{
    let ghost avs = actions@.map_values(|a: SyncAction| a@);
    let ghost l0 = old(left).as_map();
    let ghost r0 = old(right).as_map();
    let ghost log0 = old(log)@;
    let n = actions.len();
    proof {
        assert(avs.subrange(0, 0) =~= Seq::<ActionV>::empty());
        assert(log@ =~= log0 + run_log_spec(avs.subrange(0, 0), l0, r0, timestamp));
    }
    for i in 0..n
        invariant
            n == actions@.len(),
            avs == actions@.map_values(|a: SyncAction| a@),
            left.wf(),
            right.wf(),
            left.as_map() == apply_all(avs.subrange(0, i as int), l0, r0).0,
            right.as_map() == apply_all(avs.subrange(0, i as int), l0, r0).1,
            log@ == log0 + run_log_spec(avs.subrange(0, i as int), l0, r0, timestamp),
    {
        perform_sync_action(&actions[i], left, right, log, timestamp);
        proof {
            assert(actions@[i as int]@ == avs[i as int]);
            assert(avs.subrange(0, i + 1 as int) =~= avs.subrange(0, i as int).push(
                avs[i as int],
            ));
            lemma_apply_all_snoc(avs.subrange(0, i as int), avs[i as int], l0, r0);
            lemma_run_log_snoc(avs.subrange(0, i as int), avs[i as int], l0, r0, timestamp);
            assert(log@ =~= log0 + run_log_spec(avs.subrange(0, i + 1 as int), l0, r0, timestamp));
        }
    }
    proof {
        assert(avs.subrange(0, n as int) =~= avs);
    }
}

/// The actions a log records, in append order.
pub open spec fn log_actions(lg: Seq<LogEntryV>) -> Seq<ActionV> {
    lg.map_values(|e: LogEntryV| e.action)
}

/// The path undoing one action cannot restore: a delete whose backup is
/// gone.  Such an entry is surfaced, never silently treated as undone.
pub open spec fn unrec_of(a: ActionV, l: FsV, r: FsV) -> Seq<Seq<char>> {
    match a {
        ActionV::DeleteLeft(p) => if !l.contains_key(bak_path_of(p)) {
            seq![p]
        } else {
            Seq::empty()
        },
        ActionV::DeleteRight(p) => if !r.contains_key(bak_path_of(p)) {
            seq![p]
        } else {
            Seq::empty()
        },
        _ => Seq::empty(),
    }
}

/// The unrecoverable paths of undoing a whole batch in reverse order; each
/// action's verdict is judged against the states it is undone in.
pub open spec fn undo_all_unrec(acts: Seq<ActionV>, l: FsV, r: FsV) -> Seq<Seq<char>>
    decreases acts.len(),
{
    if acts.len() == 0 {
        Seq::empty()
    } else {
        let rest = undo_all(acts.drop_first(), l, r);
        undo_all_unrec(acts.drop_first(), l, r) + unrec_of(acts[0], rest.0, rest.1)
    }
}

/// Undo one copy into a store: restore the backup where one exists, remove
/// the copied file where none does.
fn undo_copy(store: &mut FileStore, rel: &String)
    requires
        old(store).wf(),
    ensures
        final(store).wf(),
        final(store).as_map() == undo_copy_spec(old(store).as_map(), rel@),
{
    let b = bak_path(rel);
    if store.contains_path(&b) {
        restore_file(store, &b, rel);
        store.remove(&b);
    } else {
        store.remove(rel);
    }
}

/// Undo one delete in a store: restore the backup where one exists.
/// Returns whether anything could be restored.
fn undo_delete(store: &mut FileStore, rel: &String) -> (restored: bool)
    requires
        old(store).wf(),
    ensures
        final(store).wf(),
        final(store).as_map() == undo_delete_spec(old(store).as_map(), rel@),
        restored == old(store).as_map().contains_key(bak_path_of(rel@)),
{
    let b = bak_path(rel);
    if store.contains_path(&b) {
        restore_file(store, &b, rel);
        store.remove(&b);
        true
    } else {
        false
    }
}

/// Undo one logged action, recording a delete that no backup can restore.
fn undo_one(
    action: &SyncAction,
    left: &mut FileStore,
    right: &mut FileStore,
    unrecoverable: &mut Vec<String>,
)
    requires
        old(left).wf(),
        old(right).wf(),
    ensures
        final(left).wf(),
        final(right).wf(),
        final(left).as_map() == undo_spec(action@, old(left).as_map(), old(right).as_map()).0,
        final(right).as_map() == undo_spec(action@, old(left).as_map(), old(right).as_map()).1,
        final(unrecoverable)@.map_values(|s: String| s@) == old(unrecoverable)@.map_values(
            |s: String| s@,
        ) + unrec_of(action@, old(left).as_map(), old(right).as_map()),
{
    let ghost pre_unrec = unrecoverable@.map_values(|s: String| s@);
    match action {
        SyncAction::CopyLeftToRight(rel) => {
            undo_copy(right, rel);
            proof {
                assert(unrecoverable@.map_values(|s: String| s@) =~= pre_unrec + Seq::<
                    Seq<char>,
                >::empty());
            }
        },
        SyncAction::CopyRightToLeft(rel) => {
            undo_copy(left, rel);
            proof {
                assert(unrecoverable@.map_values(|s: String| s@) =~= pre_unrec + Seq::<
                    Seq<char>,
                >::empty());
            }
        },
        SyncAction::DeleteLeft(rel) => {
            let restored = undo_delete(left, rel);
            if !restored {
                unrecoverable.push(rel.clone());
            }
            proof {
                assert(unrecoverable@.map_values(|s: String| s@) =~= pre_unrec + unrec_of(
                    action@,
                    old(left).as_map(),
                    old(right).as_map(),
                ));
            }
        },
        SyncAction::DeleteRight(rel) => {
            let restored = undo_delete(right, rel);
            if !restored {
                unrecoverable.push(rel.clone());
            }
            proof {
                assert(unrecoverable@.map_values(|s: String| s@) =~= pre_unrec + unrec_of(
                    action@,
                    old(left).as_map(),
                    old(right).as_map(),
                ));
            }
        },
        SyncAction::Conflict(_) => {
            proof {
                assert(unrecoverable@.map_values(|s: String| s@) =~= pre_unrec + Seq::<
                    Seq<char>,
                >::empty());
            }
        },
        SyncAction::NoOp(_) => {
            proof {
                assert(unrecoverable@.map_values(|s: String| s@) =~= pre_unrec + Seq::<
                    Seq<char>,
                >::empty());
            }
        },
    }
}

/// Walk a sync log in reverse append order and undo every entry: restore
/// backups over copied or deleted files, remove consumed backups, and
/// delete copies that had no predecessor.  Returns the paths of deletes
/// that no backup could restore (surfaced, not silently dropped).  Failed
/// entries are processed like any other: an action that left no trace
/// undoes to nothing.
pub fn rollback(log: &SyncLog, left: &mut FileStore, right: &mut FileStore) -> (unrecoverable:
    Vec<String>)
    requires
        old(left).wf(),
        old(right).wf(),
    ensures
        final(left).wf(),
        final(right).wf(),
        final(left).as_map() == undo_all(
            log_actions(log@),
            old(left).as_map(),
            old(right).as_map(),
        ).0,
        final(right).as_map() == undo_all(
            log_actions(log@),
            old(left).as_map(),
            old(right).as_map(),
        ).1,
        unrecoverable@.map_values(|s: String| s@) == undo_all_unrec(
            log_actions(log@),
            old(left).as_map(),
            old(right).as_map(),
        ),
{
    let ghost acts = log_actions(log@);
    let ghost l0 = old(left).as_map();
    let ghost r0 = old(right).as_map();
    let mut unrecoverable: Vec<String> = Vec::new();
    let n = log.entries.len();
    proof {
        assert(acts.skip(n as int) =~= Seq::<ActionV>::empty());
        assert(unrecoverable@.map_values(|s: String| s@) =~= undo_all_unrec(
            acts.skip(n as int),
            l0,
            r0,
        ));
    }
    let mut k: usize = 0;
    while k < n
        invariant
            n == log@.len(),
            acts == log_actions(log@),
            acts.len() == n,
            k <= n,
            left.wf(),
            right.wf(),
            left.as_map() == undo_all(acts.skip((n - k) as int), l0, r0).0,
            right.as_map() == undo_all(acts.skip((n - k) as int), l0, r0).1,
            unrecoverable@.map_values(|s: String| s@) == undo_all_unrec(
                acts.skip((n - k) as int),
                l0,
                r0,
            ),
        decreases n - k,
    {
        let idx = n - 1 - k;
        let entry = &log.entries[idx];
        proof {
            assert(log@[idx as int] == log.entries@[idx as int]@);
            assert(acts[idx as int] == log@[idx as int].action);
            let s1 = acts.skip(idx as int);
            assert(s1.drop_first() =~= acts.skip((n - k) as int));
            assert(s1[0] == acts[idx as int]);
        }
        undo_one(&entry.action, left, right, &mut unrecoverable);
        k = k + 1;
    }
    proof {
        assert(acts.skip(0) =~= acts);
    }
    unrecoverable
}

/// When a plan's execution is reversible: no two actions share a path, no
/// action's backup sibling is itself a planned path, and no backup sibling
/// is already taken by a file of either root.  (Backups live beside content
/// files under a fixed suffix; a content file already wearing that name is
/// the documented collision limitation.)
pub open spec fn plan_safe(acts: Seq<ActionV>, l: FsV, r: FsV) -> bool {
    &&& forall|i: int, j: int|
        0 <= i < j < acts.len() ==> action_path(#[trigger] acts[i]) != action_path(
            #[trigger] acts[j],
        )
    &&& forall|i: int, j: int|
        0 <= i < acts.len() && 0 <= j < acts.len() ==> bak_path_of(
            action_path(#[trigger] acts[i]),
        ) != action_path(#[trigger] acts[j])
    &&& forall|i: int|
        0 <= i < acts.len() ==> !l.contains_key(
            bak_path_of(action_path(#[trigger] acts[i])),
        ) && !r.contains_key(bak_path_of(action_path(acts[i])))
}

/// The planner maps each diff to an action on the diff's own path, so a
/// diff list that names no path twice (which the diff engine guarantees)
/// plans actions with pairwise-distinct paths — the first condition of
/// `plan_safe`.
pub proof fn lemma_plan_paths_distinct(ds: Seq<DiffV>)
    requires
        forall|k1: int, k2: int|
            0 <= k1 < k2 < ds.len() ==> (#[trigger] ds[k1]).path != (#[trigger] ds[k2]).path,
    ensures
        forall|k: int|
            0 <= k < ds.len() ==> action_path(#[trigger] plan_spec(ds)[k]) == ds[k].path,
        forall|k1: int, k2: int|
            0 <= k1 < k2 < ds.len() ==> action_path(#[trigger] plan_spec(ds)[k1]) != action_path(
                #[trigger] plan_spec(ds)[k2],
            ),
{
    assert forall|k: int| 0 <= k < ds.len() implies action_path(#[trigger] plan_spec(ds)[k])
        == ds[k].path by {
        assert(plan_spec(ds)[k] == action_for(ds[k]));
    }
}

/// Undoing one action right after executing it restores both roots, as long
/// as its backup sibling was free beforehand.
pub proof fn lemma_apply_undo_one(a: ActionV, l: FsV, r: FsV)
    requires
        !l.contains_key(bak_path_of(action_path(a))),
        !r.contains_key(bak_path_of(action_path(a))),
    ensures
        undo_spec(a, apply_spec(a, l, r).0, apply_spec(a, l, r).1) == (l, r),
{
    let p = action_path(a);
    let b = bak_path_of(p);
    lemma_bak_path_ne(p);
    match a {
        ActionV::CopyLeftToRight(_) => {
            let r2 = apply_spec(a, l, r).1;
            if r.contains_key(p) {
                assert(r2.contains_key(b));
                assert(r2[b] == r[p]);
                assert(undo_copy_spec(r2, p) =~= r);
            } else {
                assert(!r2.contains_key(b));
                assert(undo_copy_spec(r2, p) =~= r);
            }
        },
        ActionV::CopyRightToLeft(_) => {
            let l2 = apply_spec(a, l, r).0;
            if l.contains_key(p) {
                assert(l2.contains_key(b));
                assert(l2[b] == l[p]);
                assert(undo_copy_spec(l2, p) =~= l);
            } else {
                assert(!l2.contains_key(b));
                assert(undo_copy_spec(l2, p) =~= l);
            }
        },
        ActionV::DeleteLeft(_) => {
            let l2 = apply_spec(a, l, r).0;
            if l.contains_key(p) {
                assert(l2.contains_key(b));
                assert(l2[b] == l[p]);
                assert(undo_delete_spec(l2, p) =~= l);
            } else {
                assert(!l2.contains_key(b));
                assert(undo_delete_spec(l2, p) =~= l);
            }
        },
        ActionV::DeleteRight(_) => {
            let r2 = apply_spec(a, l, r).1;
            if r.contains_key(p) {
                assert(r2.contains_key(b));
                assert(r2[b] == r[p]);
                assert(undo_delete_spec(r2, p) =~= r);
            } else {
                assert(!r2.contains_key(b));
                assert(undo_delete_spec(r2, p) =~= r);
            }
        },
        ActionV::Conflict(_) => {},
        ActionV::NoOp(_) => {},
    }
}

/// Executing one action touches no key but the action's path and its backup
/// sibling.
pub proof fn lemma_apply_keys(a: ActionV, l: FsV, r: FsV, q: Seq<char>)
    requires
        q != action_path(a),
        q != bak_path_of(action_path(a)),
    ensures
        apply_spec(a, l, r).0.contains_key(q) == l.contains_key(q),
        apply_spec(a, l, r).1.contains_key(q) == r.contains_key(q),
{
}

/// The round trip: executing a whole plan and then rolling its log back, in
/// reverse order, restores both roots exactly — for every kind of action,
/// provided the plan was safe (distinct paths whose backup siblings were
/// free).  Within one such run a delete always leaves a backup, so even
/// deletes are restored; a backup consumed or missing outside these
/// conditions is the documented gap.
pub proof fn lemma_sync_rollback_roundtrip(acts: Seq<ActionV>, l: FsV, r: FsV)
    requires
        plan_safe(acts, l, r),
    ensures
        undo_all(acts, apply_all(acts, l, r).0, apply_all(acts, l, r).1) == (l, r),
    decreases acts.len(),
{
    if acts.len() > 0 {
        let a = acts[0];
        let p0 = action_path(a);
        let rest = acts.drop_first();
        let next = apply_spec(a, l, r);
        assert forall|i: int| 0 <= i < rest.len() implies !next.0.contains_key(
            bak_path_of(action_path(#[trigger] rest[i])),
        ) && !next.1.contains_key(bak_path_of(action_path(rest[i]))) by {
            assert(rest[i] == acts[i + 1]);
            let pi = action_path(acts[i + 1]);
            assert(bak_path_of(pi) != p0);
            if bak_path_of(pi) == bak_path_of(p0) {
                lemma_bak_path_injective(pi, p0);
                assert(action_path(acts[0]) != action_path(acts[i + 1]));
                assert(false);
            }
            lemma_apply_keys(a, l, r, bak_path_of(pi));
        }
        assert forall|i: int, j: int| 0 <= i < j < rest.len() implies action_path(
            #[trigger] rest[i],
        ) != action_path(#[trigger] rest[j]) by {
            assert(rest[i] == acts[i + 1]);
            assert(rest[j] == acts[j + 1]);
        }
        assert forall|i: int, j: int|
            0 <= i < rest.len() && 0 <= j < rest.len() implies bak_path_of(
                action_path(#[trigger] rest[i]),
            ) != action_path(#[trigger] rest[j]) by {
            assert(rest[i] == acts[i + 1]);
            assert(rest[j] == acts[j + 1]);
        }
        assert(plan_safe(rest, next.0, next.1));
        lemma_sync_rollback_roundtrip(rest, next.0, next.1);
        let fin = apply_all(rest, next.0, next.1);
        assert(apply_all(acts, l, r) == fin);
        assert(undo_all(rest, fin.0, fin.1) == (next.0, next.1));
        assert(undo_all(acts, fin.0, fin.1) == undo_spec(
            a,
            undo_all(rest, fin.0, fin.1).0,
            undo_all(rest, fin.0, fin.1).1,
        ));
        assert(!l.contains_key(bak_path_of(action_path(acts[0]))));
        lemma_apply_undo_one(a, l, r);
    }
}

/// The round trip over the executed plan's own log: running a safe plan and
/// then rolling back the very log that run wrote restores both roots.
pub proof fn lemma_executed_plan_rolls_back(acts: Seq<ActionV>, l: FsV, r: FsV, timestamp: u64)
    requires
        plan_safe(acts, l, r),
    ensures
        undo_all(
            log_actions(run_log_spec(acts, l, r, timestamp)),
            apply_all(acts, l, r).0,
            apply_all(acts, l, r).1,
        ) == (l, r),
{
    lemma_run_log_actions(acts, l, r, timestamp);
    lemma_sync_rollback_roundtrip(acts, l, r);
}

} // verus!
