//! The diff engine: classify every path of two snapshots.
//!
//! For a path present on exactly one side the verdict needs no content:
//! `OnlyInLeft` or `OnlyInRight`.  For a path present on both sides, a size
//! difference alone proves a difference; equal sizes with bit-identical
//! timestamps (equally-absent ones included) count as identical; equal sizes
//! with differing timestamps defer to the content comparator.  A comparator
//! failure is treated conservatively as a difference: stale data is surfaced
//! rather than missed.

use vstd::prelude::*;
use crate::snapshot::{FileMeta, RecordV, Snapshot, snap_map, distinct_paths};
use crate::store::{FileStore, FileV, StoredV, record_of, store_map};
use crate::store::{distinct_file_paths, lemma_store_map_at, lemma_store_map_contains};
use crate::snapshot::{lemma_snap_map_at, lemma_snap_map_contains};
use crate::hash::{compare_content, contents_match, blake3_of, SAMPLE_MIN, SMALL_MAX};

verus! {

/// The kind of difference found at one path.
#[derive(Debug, Clone)]
pub enum DiffType {
    /// The path exists only under the left root.
    OnlyInLeft,
    /// The path exists only under the right root.
    OnlyInRight,
    /// The path exists under both roots with different content or size.
    Different { left_size: u64, right_size: u64, left_time: Option<u64>, right_time: Option<u64> },
}

/// A difference found between two directory trees.
#[derive(Debug)]
pub struct Diff {
    pub path: String,
    pub diff_type: DiffType,
}

/// Mathematical image of one difference.
pub ghost struct DiffV {
    pub path: Seq<char>,
    pub diff_type: DiffType,
}

impl View for Diff {
    type V = DiffV;

    open spec fn view(&self) -> DiffV {
        DiffV { path: self.path@, diff_type: self.diff_type }
    }
}

/// A path whose metadata is ambiguous: equal sizes, differing timestamps.
/// Only these paths are handed to the content comparator.
#[derive(Debug)]
pub struct PendingCompare {
    pub path: String,
    pub left_size: u64,
    pub right_size: u64,
    pub left_time: Option<u64>,
    pub right_time: Option<u64>,
}

/// Mathematical image of one pending comparison.
pub ghost struct PendingV {
    pub path: Seq<char>,
    pub left_size: u64,
    pub right_size: u64,
    pub left_time: Option<u64>,
    pub right_time: Option<u64>,
}

impl View for PendingCompare {
    type V = PendingV;

    open spec fn view(&self) -> PendingV {
        PendingV {
            path: self.path@,
            left_size: self.left_size,
            right_size: self.right_size,
            left_time: self.left_time,
            right_time: self.right_time,
        }
    }
}

/// What the content comparator said of one pending path.  `Unreadable` means
/// the comparison could not be completed.
#[derive(Debug, Clone, Copy)]
pub enum Verdict {
    Same,
    Changed,
    Unreadable,
}

/// The `Different` diff for one path present on both sides.
pub open spec fn different_of(path: Seq<char>, lm: FileMeta, rm: FileMeta) -> DiffV {
    DiffV {
        path,
        diff_type: DiffType::Different {
            left_size: lm.size,
            right_size: rm.size,
            left_time: lm.mtime,
            right_time: rm.mtime,
        },
    }
}

/// The diffs one left-side entry contributes from metadata alone.
pub open spec fn left_entry_diffs(rec: RecordV, rmap: Map<Seq<char>, FileMeta>) -> Seq<DiffV> {
    if !rmap.contains_key(rec.path) {
        seq![DiffV { path: rec.path, diff_type: DiffType::OnlyInLeft }]
    } else if rec.meta.size != rmap[rec.path].size {
        seq![different_of(rec.path, rec.meta, rmap[rec.path])]
    } else {
        Seq::empty()
    }
}

/// Metadata is ambiguous: equal sizes but differing timestamps.
pub open spec fn needs_content(lm: FileMeta, rm: FileMeta) -> bool {
    lm.size == rm.size && lm.mtime != rm.mtime
}

/// The pending comparison one left-side entry contributes.
pub open spec fn left_entry_pending(rec: RecordV, rmap: Map<Seq<char>, FileMeta>) -> Seq<
    PendingV,
> {
    if rmap.contains_key(rec.path) && needs_content(rec.meta, rmap[rec.path]) {
        seq![
            PendingV {
                path: rec.path,
                left_size: rec.meta.size,
                right_size: rmap[rec.path].size,
                left_time: rec.meta.mtime,
                right_time: rmap[rec.path].mtime,
            },
        ]
    } else {
        Seq::empty()
    }
}

/// The metadata diffs of all left-side entries, in entry order.
pub open spec fn left_diffs(ls: Seq<RecordV>, rmap: Map<Seq<char>, FileMeta>) -> Seq<DiffV>
    decreases ls.len(),
{
    if ls.len() == 0 {
        Seq::empty()
    } else {
        left_diffs(ls.drop_last(), rmap) + left_entry_diffs(ls.last(), rmap)
    }
}

/// The pending comparisons of all left-side entries, in entry order.
pub open spec fn left_pendings(ls: Seq<RecordV>, rmap: Map<Seq<char>, FileMeta>) -> Seq<
    PendingV,
>
    decreases ls.len(),
{
    if ls.len() == 0 {
        Seq::empty()
    } else {
        left_pendings(ls.drop_last(), rmap) + left_entry_pending(ls.last(), rmap)
    }
}

/// The diff one right-side entry contributes: `OnlyInRight` where the left
/// side lacks the path.  Shared paths were already classified from the left.
pub open spec fn right_entry_diffs(rec: RecordV, lmap: Map<Seq<char>, FileMeta>) -> Seq<DiffV> {
    if !lmap.contains_key(rec.path) {
        seq![DiffV { path: rec.path, diff_type: DiffType::OnlyInRight }]
    } else {
        Seq::empty()
    }
}

/// The `OnlyInRight` diffs of all right-side entries, in entry order.
pub open spec fn right_only_diffs(rs: Seq<RecordV>, lmap: Map<Seq<char>, FileMeta>) -> Seq<
    DiffV,
>
    decreases rs.len(),
{
    if rs.len() == 0 {
        Seq::empty()
    } else {
        right_only_diffs(rs.drop_last(), lmap) + right_entry_diffs(rs.last(), lmap)
    }
}

/// Everything the diff engine can conclude from metadata alone: the left
/// pass's diffs, then the right-only diffs.
pub open spec fn metadata_diffs(l: Seq<RecordV>, r: Seq<RecordV>) -> Seq<DiffV> {
    left_diffs(l, snap_map(r)) + right_only_diffs(r, snap_map(l))
}

/// Both timestamps, compared bit for bit; two absent timestamps are equal.
fn times_equal(a: &Option<u64>, b: &Option<u64>) -> (eq: bool)
    ensures
        eq == (a == b),
{
    match (a, b) {
        (None, None) => true,
        (Some(x), Some(y)) => *x == *y,
        _ => false,
    }
}

/// Classify every path of the union of two snapshots from metadata alone.
/// Returns the metadata diffs together with the ambiguous paths that the
/// content comparator must settle.
pub fn diff_snapshots(left: &Snapshot, right: &Snapshot) -> (out: (Vec<Diff>, Vec<
    PendingCompare,
>))
    requires
        left.wf(),
        right.wf(),
    ensures
        out.0@.map_values(|d: Diff| d@) == metadata_diffs(left@, right@),
        out.1@.map_values(|p: PendingCompare| p@) == left_pendings(left@, right.as_map()),
{
    let ghost rmap = right.as_map();
    let ghost lmap = left.as_map();
    let mut diffs: Vec<Diff> = Vec::new();
    let mut pending: Vec<PendingCompare> = Vec::new();
    let nl = left.len();
    proof {
        assert(left@.subrange(0, 0) =~= Seq::<RecordV>::empty());
        assert(diffs@.map_values(|d: Diff| d@) =~= left_diffs(left@.subrange(0, 0), rmap));
        assert(pending@.map_values(|p: PendingCompare| p@) =~= left_pendings(
            left@.subrange(0, 0),
            rmap,
        ));
    }
    for i in 0..nl
        invariant
            left.wf(),
            right.wf(),
            rmap == right.as_map(),
            nl == left@.len(),
            diffs@.map_values(|d: Diff| d@) == left_diffs(left@.subrange(0, i as int), rmap),
            pending@.map_values(|p: PendingCompare| p@) == left_pendings(
                left@.subrange(0, i as int),
                rmap,
            ),
    {
        let ghost pre_diffs = diffs@.map_values(|d: Diff| d@);
        let ghost pre_pending = pending@.map_values(|p: PendingCompare| p@);
        let ghost rec = left@[i as int];
        let entry = left.record_at(i);
        match right.lookup(&entry.path) {
            None => {
                diffs.push(Diff { path: entry.path.clone(), diff_type: DiffType::OnlyInLeft });
                proof {
                    assert(diffs@.map_values(|d: Diff| d@) =~= pre_diffs + left_entry_diffs(
                        rec,
                        rmap,
                    ));
                }
            },
            Some(rm) => {
                if entry.meta.size != rm.size {
                    diffs.push(
                        Diff {
                            path: entry.path.clone(),
                            diff_type: DiffType::Different {
                                left_size: entry.meta.size,
                                right_size: rm.size,
                                left_time: entry.meta.mtime,
                                right_time: rm.mtime,
                            },
                        },
                    );
                    proof {
                        assert(diffs@.map_values(|d: Diff| d@) =~= pre_diffs + left_entry_diffs(
                            rec,
                            rmap,
                        ));
                    }
                } else if !times_equal(&entry.meta.mtime, &rm.mtime) {
                    pending.push(
                        PendingCompare {
                            path: entry.path.clone(),
                            left_size: entry.meta.size,
                            right_size: rm.size,
                            left_time: entry.meta.mtime,
                            right_time: rm.mtime,
                        },
                    );
                    proof {
                        assert(pending@.map_values(|p: PendingCompare| p@) =~= pre_pending
                            + left_entry_pending(rec, rmap));
                    }
                }
            },
        }
        proof {
            let sub1 = left@.subrange(0, i + 1 as int);
            assert(sub1.drop_last() =~= left@.subrange(0, i as int));
            assert(sub1.last() == rec);
            assert(diffs@.map_values(|d: Diff| d@) =~= left_diffs(sub1, rmap));
            assert(pending@.map_values(|p: PendingCompare| p@) =~= left_pendings(sub1, rmap));
        }
    }
    proof {
        assert(left@.subrange(0, nl as int) =~= left@);
    }
    let nr = right.len();
    proof {
        assert(right@.subrange(0, 0) =~= Seq::<RecordV>::empty());
        assert(diffs@.map_values(|d: Diff| d@) =~= left_diffs(left@, rmap) + right_only_diffs(
            right@.subrange(0, 0),
            lmap,
        ));
    }
    for i in 0..nr
        invariant
            left.wf(),
            right.wf(),
            lmap == left.as_map(),
            rmap == right.as_map(),
            nr == right@.len(),
            diffs@.map_values(|d: Diff| d@) == left_diffs(left@, rmap) + right_only_diffs(
                right@.subrange(0, i as int),
                lmap,
            ),
            pending@.map_values(|p: PendingCompare| p@) == left_pendings(left@, rmap),
    {
        let ghost pre_diffs = diffs@.map_values(|d: Diff| d@);
        let ghost rec = right@[i as int];
        let entry = right.record_at(i);
        if !left.contains_path(&entry.path) {
            diffs.push(Diff { path: entry.path.clone(), diff_type: DiffType::OnlyInRight });
            proof {
                assert(diffs@.map_values(|d: Diff| d@) =~= pre_diffs + right_entry_diffs(
                    rec,
                    lmap,
                ));
            }
        }
        proof {
            let sub1 = right@.subrange(0, i + 1 as int);
            assert(sub1.drop_last() =~= right@.subrange(0, i as int));
            assert(sub1.last() == rec);
            assert(right_only_diffs(sub1, lmap) =~= right_only_diffs(
                right@.subrange(0, i as int),
                lmap,
            ) + right_entry_diffs(rec, lmap));
            assert(diffs@.map_values(|d: Diff| d@) =~= left_diffs(left@, rmap) + right_only_diffs(
                sub1,
                lmap,
            ));
        }
    }
    proof {
        assert(right@.subrange(0, nr as int) =~= right@);
    }
    (diffs, pending)
}

/// The diff a settled comparison contributes: nothing where the contents
/// matched; a `Different` diff where they differed, and also where the
/// comparison failed (the conservative, documented policy).
pub open spec fn resolved_entry(p: PendingV, v: Verdict) -> Seq<DiffV> {
    match v {
        Verdict::Same => Seq::empty(),
        _ => seq![
            DiffV {
                path: p.path,
                diff_type: DiffType::Different {
                    left_size: p.left_size,
                    right_size: p.right_size,
                    left_time: p.left_time,
                    right_time: p.right_time,
                },
            },
        ],
    }
}

/// All diffs the settled comparisons contribute, in pending order.
pub open spec fn resolved_diffs(ps: Seq<PendingV>, vs: Seq<Verdict>) -> Seq<DiffV>
    decreases ps.len(),
{
    if ps.len() == 0 {
        Seq::empty()
    } else {
        resolved_diffs(ps.drop_last(), vs.drop_last()) + resolved_entry(ps.last(), vs.last())
    }
}

/// Turn the comparator's verdicts on the pending paths into diffs.
pub fn resolve_pending(pending: &Vec<PendingCompare>, verdicts: &Vec<Verdict>) -> (out: Vec<
    Diff,
>)
    requires
        verdicts@.len() == pending@.len(),
    ensures
        out@.map_values(|d: Diff| d@) == resolved_diffs(
            pending@.map_values(|p: PendingCompare| p@),
            verdicts@,
        ),
{
    let ghost ps = pending@.map_values(|p: PendingCompare| p@);
    let mut out: Vec<Diff> = Vec::new();
    let n = pending.len();
    proof {
        assert(ps.subrange(0, 0) =~= Seq::<PendingV>::empty());
        assert(out@.map_values(|d: Diff| d@) =~= resolved_diffs(
            ps.subrange(0, 0),
            verdicts@.subrange(0, 0),
        ));
    }
    for i in 0..n
        invariant
            n == pending@.len(),
            verdicts@.len() == pending@.len(),
            ps == pending@.map_values(|p: PendingCompare| p@),
            out@.map_values(|d: Diff| d@) == resolved_diffs(
                ps.subrange(0, i as int),
                verdicts@.subrange(0, i as int),
            ),
    {
        let ghost pre = out@.map_values(|d: Diff| d@);
        let p = &pending[i];
        let changed = match verdicts[i] {
            Verdict::Same => false,
            Verdict::Changed => true,
            Verdict::Unreadable => true,
        };
        if changed {
            out.push(
                Diff {
                    path: p.path.clone(),
                    diff_type: DiffType::Different {
                        left_size: p.left_size,
                        right_size: p.right_size,
                        left_time: p.left_time,
                        right_time: p.right_time,
                    },
                },
            );
        }
        proof {
            assert(out@.map_values(|d: Diff| d@) =~= pre + resolved_entry(
                ps[i as int],
                verdicts@[i as int],
            ));
            assert(ps.subrange(0, i + 1 as int).drop_last() =~= ps.subrange(0, i as int));
            assert(verdicts@.subrange(0, i + 1 as int).drop_last() =~= verdicts@.subrange(
                0,
                i as int,
            ));
            assert(ps.subrange(0, i + 1 as int).last() == ps[i as int]);
            assert(verdicts@.subrange(0, i + 1 as int).last() == verdicts@[i as int]);
            assert(out@.map_values(|d: Diff| d@) =~= resolved_diffs(
                ps.subrange(0, i + 1 as int),
                verdicts@.subrange(0, i + 1 as int),
            ));
        }
    }
    proof {
        assert(ps.subrange(0, n as int) =~= ps);
        assert(verdicts@.subrange(0, n as int) =~= verdicts@);
    }
    out
}

/// What every pending comparison carries: metadata read off some left entry
/// and off the right map, with the two sizes equal.
pub open spec fn pending_wf(p: PendingV, ls: Seq<RecordV>, rmap: Map<Seq<char>, FileMeta>) -> bool {
    &&& exists|i: int|
        0 <= i < ls.len() && ls[i].path == p.path && ls[i].meta.size == p.left_size
            && ls[i].meta.mtime == p.left_time
    &&& rmap.contains_key(p.path)
    &&& rmap[p.path].size == p.right_size
    &&& rmap[p.path].mtime == p.right_time
    &&& p.left_size == p.right_size
}

/// Every pending comparison is well-formed.
pub proof fn lemma_left_pendings_wf(ls: Seq<RecordV>, rmap: Map<Seq<char>, FileMeta>)
    ensures
        forall|k: int|
            0 <= k < left_pendings(ls, rmap).len() ==> pending_wf(
                #[trigger] left_pendings(ls, rmap)[k],
                ls,
                rmap,
            ),
    decreases ls.len(),
{
    if ls.len() > 0 {
        lemma_left_pendings_wf(ls.drop_last(), rmap);
        let ps = left_pendings(ls, rmap);
        let pre = left_pendings(ls.drop_last(), rmap);
        assert forall|k: int| 0 <= k < ps.len() implies pending_wf(ps[k], ls, rmap) by {
            if k < pre.len() {
                assert(ps[k] == pre[k]);
                assert(pending_wf(pre[k], ls.drop_last(), rmap));
                let i = choose|i: int|
                    0 <= i < ls.drop_last().len() && ls.drop_last()[i].path == pre[k].path
                        && ls.drop_last()[i].meta.size == pre[k].left_size && ls.drop_last()[i].meta.mtime
                        == pre[k].left_time;
                assert(ls[i] == ls.drop_last()[i]);
            } else {
                let rec = ls.last();
                assert(ps[k] == left_entry_pending(rec, rmap)[k - pre.len()]);
                assert(ls[ls.len() - 1] == rec);
            }
        }
    }
}

/// The snapshot entries a store's files give rise to.
pub open spec fn snap_of(s: Seq<StoredV>) -> Seq<RecordV> {
    s.map_values(|f: StoredV| record_of(f))
}

/// The verdict the comparator reaches for one pending path of two stores.
pub open spec fn tree_verdict(
    lmap: Map<Seq<char>, FileV>,
    rmap: Map<Seq<char>, FileV>,
    p: PendingV,
    force_full: bool,
) -> Verdict {
    if lmap.contains_key(p.path) && rmap.contains_key(p.path) {
        if contents_match(lmap[p.path].content, rmap[p.path].content, force_full) {
            Verdict::Same
        } else {
            Verdict::Changed
        }
    } else {
        Verdict::Unreadable
    }
}

/// The verdicts of all pending paths, in pending order.
pub open spec fn tree_verdicts(
    lmap: Map<Seq<char>, FileV>,
    rmap: Map<Seq<char>, FileV>,
    ps: Seq<PendingV>,
    force_full: bool,
) -> Seq<Verdict> {
    ps.map_values(|p: PendingV| tree_verdict(lmap, rmap, p, force_full))
}

/// The full diff list of two in-memory trees: the metadata diffs, then the
/// content-confirmed diffs of the ambiguous paths.
pub open spec fn tree_diffs(l: Seq<StoredV>, r: Seq<StoredV>, force_full: bool) -> Seq<DiffV> {
    let ls = snap_of(l);
    let rs = snap_of(r);
    let ps = left_pendings(ls, snap_map(rs));
    metadata_diffs(ls, rs) + resolved_diffs(
        ps,
        tree_verdicts(store_map(l), store_map(r), ps, force_full),
    )
}

/// Compare two in-memory trees end to end: build both snapshots, classify
/// every path from metadata, and settle the ambiguous paths by content.
/// `force_full` disables the sampling heuristic for very large files.
pub fn compare_trees(left: &FileStore, right: &FileStore, force_full: bool) -> (diffs: Vec<Diff>)
    requires
        left.wf(),
        right.wf(),
    ensures
        diffs@.map_values(|d: Diff| d@) == tree_diffs(left@, right@, force_full),
{
    let ghost lmap = store_map(left@);
    let ghost rmap = store_map(right@);
    let lsnap = left.to_snapshot();
    let rsnap = right.to_snapshot();
    proof {
        assert(lsnap@ == snap_of(left@));
        assert(rsnap@ == snap_of(right@));
    }
    let (mut diffs, pending) = diff_snapshots(&lsnap, &rsnap);
    let ghost ps = left_pendings(snap_of(left@), snap_map(snap_of(right@)));
    proof {
        lemma_left_pendings_wf(snap_of(left@), snap_map(snap_of(right@)));
    }
    let mut verdicts: Vec<Verdict> = Vec::new();
    let np = pending.len();
    proof {
        assert(ps.subrange(0, 0) =~= Seq::<PendingV>::empty());
        assert(verdicts@ =~= tree_verdicts(lmap, rmap, ps.subrange(0, 0), force_full));
    }
    for k in 0..np
        invariant
            left.wf(),
            right.wf(),
            lmap == store_map(left@),
            rmap == store_map(right@),
            np == pending@.len(),
            pending@.map_values(|p: PendingCompare| p@) == ps,
            forall|j: int| 0 <= j < ps.len() ==> pending_wf(#[trigger] ps[j], snap_of(left@), snap_map(snap_of(right@))),
            verdicts@ == tree_verdicts(lmap, rmap, ps.subrange(0, k as int), force_full),
    {
        let ghost pv = ps[k as int];
        let p = &pending[k];
        proof {
            assert(p@ == pv);
            assert(pending_wf(pv, snap_of(left@), snap_map(snap_of(right@))));
        }
        let lf = left.get(&p.path);
        let rf = right.get(&p.path);
        let v = match (lf, rf) {
            (Some(lfile), Some(rfile)) => {
                let ll = lfile.content.len();
                let rl = rfile.content.len();
                proof {
                    let i = choose|i: int|
                        0 <= i < snap_of(left@).len() && snap_of(left@)[i].path == pv.path
                            && snap_of(left@)[i].meta.size == pv.left_size && snap_of(
                            left@,
                        )[i].meta.mtime == pv.left_time;
                    assert(snap_of(left@)[i] == record_of(left@[i]));
                    lemma_store_map_at(left@, i);
                    assert(lmap[pv.path].content == left@[i].content);
                    assert(ll as u64 == pv.left_size);
                    lemma_snap_map_contains(snap_of(right@), pv.path);
                    let j = choose|j: int|
                        0 <= j < snap_of(right@).len() && snap_of(right@)[j].path == pv.path;
                    assert(distinct_file_paths(right@));
                    assert(forall|a: int, b: int|
                        0 <= a < b < snap_of(right@).len() ==> snap_of(right@)[a].path != snap_of(
                            right@,
                        )[b].path);
                    lemma_snap_map_at(snap_of(right@), j);
                    assert(snap_map(snap_of(right@))[pv.path] == record_of(right@[j]).meta);
                    lemma_store_map_at(right@, j);
                    assert(rmap[pv.path].content == right@[j].content);
                    assert(rl as u64 == pv.right_size);
                    assert(lfile.content@.len() == rfile.content@.len());
                }
                if compare_content(&lfile.content, &rfile.content, force_full) {
                    Verdict::Same
                } else {
                    Verdict::Changed
                }
            },
            _ => Verdict::Unreadable,
        };
        verdicts.push(v);
        proof {
            assert(v == tree_verdict(lmap, rmap, pv, force_full));
            assert(ps.subrange(0, k + 1 as int) =~= ps.subrange(0, k as int).push(pv));
            assert(verdicts@ =~= tree_verdicts(lmap, rmap, ps.subrange(0, k + 1 as int), force_full));
        }
    }
    proof {
        assert(ps.subrange(0, np as int) =~= ps);
    }
    let mut extra = resolve_pending(&pending, &verdicts);
    let ghost meta_part = diffs@.map_values(|d: Diff| d@);
    let ghost extra_part = extra@.map_values(|d: Diff| d@);
    diffs.append(&mut extra);
    proof {
        assert(diffs@.map_values(|d: Diff| d@) =~= meta_part + extra_part);
        assert(diffs@.map_values(|d: Diff| d@) =~= tree_diffs(left@, right@, force_full));
    }
    diffs
}

/// Every left-pass diff is what some left entry contributed.
pub proof fn lemma_left_diffs_member(ls: Seq<RecordV>, rmap: Map<Seq<char>, FileMeta>)
    ensures
        forall|k: int|
            0 <= k < left_diffs(ls, rmap).len() ==> exists|i: int|
                0 <= i < ls.len() && (#[trigger] left_entry_diffs(ls[i], rmap)).len() > 0 && (
                #[trigger] left_diffs(ls, rmap)[k]) == left_entry_diffs(ls[i], rmap)[0]
                    && ls[i].path == left_diffs(ls, rmap)[k].path,
    decreases ls.len(),
{
    if ls.len() > 0 {
        lemma_left_diffs_member(ls.drop_last(), rmap);
        let ds = left_diffs(ls, rmap);
        let pre = left_diffs(ls.drop_last(), rmap);
        let ent = left_entry_diffs(ls.last(), rmap);
        assert forall|k: int| #![trigger ds[k]] 0 <= k < ds.len() implies exists|i: int|
            0 <= i < ls.len() && (#[trigger] left_entry_diffs(ls[i], rmap)).len() > 0 && ds[k]
                == left_entry_diffs(ls[i], rmap)[0] && ls[i].path == ds[k].path by {
            if k < pre.len() {
                assert(ds[k] == pre[k]);
                let i = choose|i: int|
                    0 <= i < ls.drop_last().len() && (#[trigger] left_entry_diffs(ls.drop_last()[i], rmap)).len()
                        > 0 && pre[k] == left_entry_diffs(ls.drop_last()[i], rmap)[0]
                        && ls.drop_last()[i].path == pre[k].path;
                assert(ls[i] == ls.drop_last()[i]);
            } else {
                let i = ls.len() - 1;
                assert(ds[k] == ent[k - pre.len()]);
                assert(k - pre.len() == 0);
                assert(ls[i] == ls.last());
            }
        }
    }
}

/// Every pending comparison is what some left entry contributed.
pub proof fn lemma_left_pendings_member(ls: Seq<RecordV>, rmap: Map<Seq<char>, FileMeta>)
    ensures
        forall|k: int|
            0 <= k < left_pendings(ls, rmap).len() ==> exists|i: int|
                0 <= i < ls.len() && (#[trigger] left_entry_pending(ls[i], rmap)).len() > 0 && (
                #[trigger] left_pendings(ls, rmap)[k]) == left_entry_pending(ls[i], rmap)[0]
                    && ls[i].path == left_pendings(ls, rmap)[k].path,
    decreases ls.len(),
{
    if ls.len() > 0 {
        lemma_left_pendings_member(ls.drop_last(), rmap);
        let ps = left_pendings(ls, rmap);
        let pre = left_pendings(ls.drop_last(), rmap);
        let ent = left_entry_pending(ls.last(), rmap);
        assert forall|k: int| #![trigger ps[k]] 0 <= k < ps.len() implies exists|i: int|
            0 <= i < ls.len() && (#[trigger] left_entry_pending(ls[i], rmap)).len() > 0 && ps[k]
                == left_entry_pending(ls[i], rmap)[0] && ls[i].path == ps[k].path by {
            if k < pre.len() {
                assert(ps[k] == pre[k]);
                let i = choose|i: int|
                    0 <= i < ls.drop_last().len() && (#[trigger] left_entry_pending(ls.drop_last()[i], rmap)).len()
                        > 0 && pre[k] == left_entry_pending(ls.drop_last()[i], rmap)[0]
                        && ls.drop_last()[i].path == pre[k].path;
                assert(ls[i] == ls.drop_last()[i]);
            } else {
                let i = ls.len() - 1;
                assert(ps[k] == ent[k - pre.len()]);
                assert(k - pre.len() == 0);
                assert(ls[i] == ls.last());
            }
        }
    }
}

/// Every right-pass diff is what some right entry contributed.
pub proof fn lemma_right_only_member(rs: Seq<RecordV>, lmap: Map<Seq<char>, FileMeta>)
    ensures
        forall|k: int|
            0 <= k < right_only_diffs(rs, lmap).len() ==> exists|i: int|
                0 <= i < rs.len() && (#[trigger] right_entry_diffs(rs[i], lmap)).len() > 0 && (
                #[trigger] right_only_diffs(rs, lmap)[k]) == right_entry_diffs(rs[i], lmap)[0]
                    && rs[i].path == right_only_diffs(rs, lmap)[k].path,
    decreases rs.len(),
{
    if rs.len() > 0 {
        lemma_right_only_member(rs.drop_last(), lmap);
        let ds = right_only_diffs(rs, lmap);
        let pre = right_only_diffs(rs.drop_last(), lmap);
        let ent = right_entry_diffs(rs.last(), lmap);
        assert forall|k: int| #![trigger ds[k]] 0 <= k < ds.len() implies exists|i: int|
            0 <= i < rs.len() && (#[trigger] right_entry_diffs(rs[i], lmap)).len() > 0 && ds[k]
                == right_entry_diffs(rs[i], lmap)[0] && rs[i].path == ds[k].path by {
            if k < pre.len() {
                assert(ds[k] == pre[k]);
                let i = choose|i: int|
                    0 <= i < rs.drop_last().len() && right_entry_diffs(rs.drop_last()[i], lmap).len()
                        > 0 && pre[k] == right_entry_diffs(rs.drop_last()[i], lmap)[0]
                        && rs.drop_last()[i].path == pre[k].path;
                assert(rs[i] == rs.drop_last()[i]);
            } else {
                let i = rs.len() - 1;
                assert(ds[k] == ent[k - pre.len()]);
                assert(k - pre.len() == 0);
                assert(rs[i] == rs.last());
            }
        }
    }
}

/// Every content-confirmed diff is what some pending comparison resolved to.
pub proof fn lemma_resolved_member(ps: Seq<PendingV>, vs: Seq<Verdict>)
    requires
        vs.len() == ps.len(),
    ensures
        forall|k: int|
            0 <= k < resolved_diffs(ps, vs).len() ==> exists|j: int|
                0 <= j < ps.len() && (#[trigger] resolved_entry(ps[j], vs[j])).len() > 0 && (
                #[trigger] resolved_diffs(ps, vs)[k]) == resolved_entry(ps[j], vs[j])[0]
                    && ps[j].path == resolved_diffs(ps, vs)[k].path,
    decreases ps.len(),
{
    if ps.len() > 0 {
        lemma_resolved_member(ps.drop_last(), vs.drop_last());
        let ds = resolved_diffs(ps, vs);
        let pre = resolved_diffs(ps.drop_last(), vs.drop_last());
        let ent = resolved_entry(ps.last(), vs.last());
        assert forall|k: int| #![trigger ds[k]] 0 <= k < ds.len() implies exists|j: int|
            0 <= j < ps.len() && (#[trigger] resolved_entry(ps[j], vs[j])).len() > 0 && ds[k] == resolved_entry(
                ps[j],
                vs[j],
            )[0] && ps[j].path == ds[k].path by {
            if k < pre.len() {
                assert(ds[k] == pre[k]);
                let j = choose|j: int|
                    0 <= j < ps.drop_last().len() && (#[trigger] resolved_entry(
                        ps.drop_last()[j],
                        vs.drop_last()[j],
                    )).len() > 0 && pre[k] == resolved_entry(ps.drop_last()[j], vs.drop_last()[j])[0]
                        && ps.drop_last()[j].path == pre[k].path;
                assert(ps[j] == ps.drop_last()[j]);
                assert(vs[j] == vs.drop_last()[j]);
            } else {
                let j = ps.len() - 1;
                assert(ds[k] == ent[k - pre.len()]);
                assert(k - pre.len() == 0);
                assert(ps[j] == ps.last());
                assert(vs[j] == vs.last());
            }
        }
    }
}

/// With duplicate-free entries, the left pass never names a path twice,
/// between its diffs, between its pending comparisons, or across the two.
pub proof fn lemma_left_outputs_unique(ls: Seq<RecordV>, rmap: Map<Seq<char>, FileMeta>)
    requires
        crate::snapshot::distinct_paths(ls),
    ensures
        forall|k1: int, k2: int|
            0 <= k1 < k2 < left_diffs(ls, rmap).len() ==> (#[trigger] left_diffs(ls, rmap)[k1]).path
                != (#[trigger] left_diffs(ls, rmap)[k2]).path,
        forall|k1: int, k2: int|
            0 <= k1 < k2 < left_pendings(ls, rmap).len() ==> (#[trigger] left_pendings(
                ls,
                rmap,
            )[k1]).path != (#[trigger] left_pendings(ls, rmap)[k2]).path,
        forall|k1: int, k2: int|
            0 <= k1 < left_diffs(ls, rmap).len() && 0 <= k2 < left_pendings(ls, rmap).len() ==> (
            #[trigger] left_diffs(ls, rmap)[k1]).path != (#[trigger] left_pendings(
                ls,
                rmap,
            )[k2]).path,
    decreases ls.len(),
{
    if ls.len() > 0 {
        assert(crate::snapshot::distinct_paths(ls.drop_last()));
        lemma_left_outputs_unique(ls.drop_last(), rmap);
        lemma_left_diffs_member(ls.drop_last(), rmap);
        lemma_left_pendings_member(ls.drop_last(), rmap);
        let last = ls.last();
        let dpre = left_diffs(ls.drop_last(), rmap);
        let ppre = left_pendings(ls.drop_last(), rmap);
        assert forall|k: int| 0 <= k < dpre.len() implies (#[trigger] dpre[k]).path != last.path by {
            let i = choose|i: int|
                0 <= i < ls.drop_last().len() && (#[trigger] left_entry_diffs(ls.drop_last()[i], rmap)).len() > 0
                    && dpre[k] == left_entry_diffs(ls.drop_last()[i], rmap)[0]
                    && ls.drop_last()[i].path == dpre[k].path;
            assert(ls[i].path != ls[ls.len() - 1].path);
        }
        assert forall|k: int| 0 <= k < ppre.len() implies (#[trigger] ppre[k]).path != last.path by {
            let i = choose|i: int|
                0 <= i < ls.drop_last().len() && left_entry_pending(ls.drop_last()[i], rmap).len()
                    > 0 && ppre[k] == left_entry_pending(ls.drop_last()[i], rmap)[0]
                    && ls.drop_last()[i].path == ppre[k].path;
            assert(ls[i].path != ls[ls.len() - 1].path);
        }
        assert(left_entry_diffs(last, rmap).len() > 0 ==> left_entry_pending(last, rmap).len()
            == 0);
    }
}

/// With duplicate-free entries, the right pass never names a path twice.
pub proof fn lemma_right_only_unique(rs: Seq<RecordV>, lmap: Map<Seq<char>, FileMeta>)
    requires
        crate::snapshot::distinct_paths(rs),
    ensures
        forall|k1: int, k2: int|
            0 <= k1 < k2 < right_only_diffs(rs, lmap).len() ==> (#[trigger] right_only_diffs(
                rs,
                lmap,
            )[k1]).path != (#[trigger] right_only_diffs(rs, lmap)[k2]).path,
    decreases rs.len(),
{
    if rs.len() > 0 {
        assert(crate::snapshot::distinct_paths(rs.drop_last()));
        lemma_right_only_unique(rs.drop_last(), lmap);
        lemma_right_only_member(rs.drop_last(), lmap);
        let last = rs.last();
        let pre = right_only_diffs(rs.drop_last(), lmap);
        assert forall|k: int| 0 <= k < pre.len() implies (#[trigger] pre[k]).path != last.path by {
            let i = choose|i: int|
                0 <= i < rs.drop_last().len() && (#[trigger] right_entry_diffs(rs.drop_last()[i], lmap)).len()
                    > 0 && pre[k] == right_entry_diffs(rs.drop_last()[i], lmap)[0]
                    && rs.drop_last()[i].path == pre[k].path;
            assert(rs[i].path != rs[rs.len() - 1].path);
        }
    }
}

/// A left entry's diff, where it contributes one, appears in the left pass.
pub proof fn lemma_left_diffs_has(ls: Seq<RecordV>, rmap: Map<Seq<char>, FileMeta>, i: int)
    requires
        0 <= i < ls.len(),
        left_entry_diffs(ls[i], rmap).len() > 0,
    ensures
        exists|k: int|
            0 <= k < left_diffs(ls, rmap).len() && (#[trigger] left_diffs(ls, rmap)[k])
                == left_entry_diffs(ls[i], rmap)[0],
    decreases ls.len(),
{
    let ds = left_diffs(ls, rmap);
    let pre = left_diffs(ls.drop_last(), rmap);
    if i == ls.len() - 1 {
        assert(ls[i] == ls.last());
        assert(ds[pre.len() as int] == left_entry_diffs(ls[i], rmap)[0]);
    } else {
        assert(ls.drop_last()[i] == ls[i]);
        lemma_left_diffs_has(ls.drop_last(), rmap, i);
        let k = choose|k: int|
            0 <= k < pre.len() && (#[trigger] pre[k]) == left_entry_diffs(ls.drop_last()[i], rmap)[0];
        assert(ds[k] == pre[k]);
    }
}

/// A left entry's pending comparison, where it contributes one, appears in
/// the left pass.
pub proof fn lemma_left_pendings_has(ls: Seq<RecordV>, rmap: Map<Seq<char>, FileMeta>, i: int)
    requires
        0 <= i < ls.len(),
        left_entry_pending(ls[i], rmap).len() > 0,
    ensures
        exists|k: int|
            0 <= k < left_pendings(ls, rmap).len() && (#[trigger] left_pendings(ls, rmap)[k])
                == left_entry_pending(ls[i], rmap)[0],
    decreases ls.len(),
{
    let ps = left_pendings(ls, rmap);
    let pre = left_pendings(ls.drop_last(), rmap);
    if i == ls.len() - 1 {
        assert(ls[i] == ls.last());
        assert(ps[pre.len() as int] == left_entry_pending(ls[i], rmap)[0]);
    } else {
        assert(ls.drop_last()[i] == ls[i]);
        lemma_left_pendings_has(ls.drop_last(), rmap, i);
        let k = choose|k: int|
            0 <= k < pre.len() && (#[trigger] pre[k]) == left_entry_pending(
                ls.drop_last()[i],
                rmap,
            )[0];
        assert(ps[k] == pre[k]);
    }
}

/// A pending comparison that did not come back clean yields its diff.
pub proof fn lemma_resolved_has(ps: Seq<PendingV>, vs: Seq<Verdict>, j: int)
    requires
        vs.len() == ps.len(),
        0 <= j < ps.len(),
        !(vs[j] is Same),
    ensures
        exists|k: int|
            0 <= k < resolved_diffs(ps, vs).len() && (#[trigger] resolved_diffs(ps, vs)[k])
                == resolved_entry(ps[j], vs[j])[0],
    decreases ps.len(),
{
    let ds = resolved_diffs(ps, vs);
    let pre = resolved_diffs(ps.drop_last(), vs.drop_last());
    if j == ps.len() - 1 {
        assert(ps[j] == ps.last());
        assert(vs[j] == vs.last());
        assert(ds[pre.len() as int] == resolved_entry(ps[j], vs[j])[0]);
    } else {
        assert(ps.drop_last()[j] == ps[j]);
        assert(vs.drop_last()[j] == vs[j]);
        lemma_resolved_has(ps.drop_last(), vs.drop_last(), j);
        let k = choose|k: int|
            0 <= k < pre.len() && (#[trigger] pre[k]) == resolved_entry(
                ps.drop_last()[j],
                vs.drop_last()[j],
            )[0];
        assert(ds[k] == pre[k]);
    }
}

/// The content-confirmed diffs never name a path twice, as long as the
/// pending comparisons do not.
pub proof fn lemma_resolved_unique(ps: Seq<PendingV>, vs: Seq<Verdict>)
    requires
        vs.len() == ps.len(),
        forall|k1: int, k2: int|
            0 <= k1 < k2 < ps.len() ==> (#[trigger] ps[k1]).path != (#[trigger] ps[k2]).path,
    ensures
        forall|k1: int, k2: int|
            0 <= k1 < k2 < resolved_diffs(ps, vs).len() ==> (#[trigger] resolved_diffs(
                ps,
                vs,
            )[k1]).path != (#[trigger] resolved_diffs(ps, vs)[k2]).path,
    decreases ps.len(),
{
    if ps.len() > 0 {
        assert(forall|k1: int, k2: int|
            0 <= k1 < k2 < ps.drop_last().len() ==> (#[trigger] ps.drop_last()[k1]).path != (
            #[trigger] ps.drop_last()[k2]).path);
        lemma_resolved_unique(ps.drop_last(), vs.drop_last());
        lemma_resolved_member(ps.drop_last(), vs.drop_last());
        let pre = resolved_diffs(ps.drop_last(), vs.drop_last());
        assert forall|k: int| #![trigger pre[k]] 0 <= k < pre.len() implies pre[k].path
            != ps.last().path by {
            let j = choose|j: int|
                0 <= j < ps.drop_last().len() && (#[trigger] resolved_entry(
                    ps.drop_last()[j],
                    vs.drop_last()[j],
                )).len() > 0 && pre[k] == resolved_entry(ps.drop_last()[j], vs.drop_last()[j])[0]
                    && ps.drop_last()[j].path == pre[k].path;
            assert(ps[j].path != ps[ps.len() - 1].path);
        }
    }
}

/// The snapshot entries of a duplicate-free store are duplicate-free.
pub proof fn lemma_snap_of_distinct(l: Seq<StoredV>)
    requires
        distinct_file_paths(l),
    ensures
        distinct_paths(snap_of(l)),
{
    assert forall|i: int, j: int| 0 <= i < j < snap_of(l).len() implies snap_of(l)[i].path
        != snap_of(l)[j].path by {
        assert(l[i].path != l[j].path);
    }
}

/// A path is in a store's snapshot map exactly when it is in the store.
pub proof fn lemma_snap_of_contains(l: Seq<StoredV>, p: Seq<char>)
    ensures
        snap_map(snap_of(l)).contains_key(p) == store_map(l).contains_key(p),
{
    lemma_snap_map_contains(snap_of(l), p);
    lemma_store_map_contains(l, p);
    if store_map(l).contains_key(p) {
        let i = choose|i: int| 0 <= i < l.len() && l[i].path == p;
        assert(snap_of(l)[i].path == p);
    }
    if snap_map(snap_of(l)).contains_key(p) {
        let i = choose|i: int| 0 <= i < snap_of(l).len() && snap_of(l)[i].path == p;
        assert(l[i].path == p);
    }
}

/// With no differences to find there are none: two trees whose snapshots
/// agree on every path, size and timestamp produce an empty diff list and
/// no content comparisons at all.
proof fn lemma_left_no_changes(ls: Seq<RecordV>, rmap: Map<Seq<char>, FileMeta>)
    requires
        forall|i: int|
            0 <= i < ls.len() ==> rmap.contains_key((#[trigger] ls[i]).path) && rmap[ls[i].path]
                == ls[i].meta,
    ensures
        left_diffs(ls, rmap) == Seq::<DiffV>::empty(),
        left_pendings(ls, rmap) == Seq::<PendingV>::empty(),
    decreases ls.len(),
{
    if ls.len() > 0 {
        assert(forall|i: int|
            0 <= i < ls.drop_last().len() ==> (#[trigger] ls.drop_last()[i]) == ls[i]);
        lemma_left_no_changes(ls.drop_last(), rmap);
        assert(ls[ls.len() - 1] == ls.last());
        assert(left_diffs(ls, rmap) =~= Seq::<DiffV>::empty());
        assert(left_pendings(ls, rmap) =~= Seq::<PendingV>::empty());
    }
}

/// A right side whose every path the left map also holds adds no diffs.
proof fn lemma_right_no_extras(rs: Seq<RecordV>, lmap: Map<Seq<char>, FileMeta>)
    requires
        forall|i: int| 0 <= i < rs.len() ==> lmap.contains_key((#[trigger] rs[i]).path),
    ensures
        right_only_diffs(rs, lmap) == Seq::<DiffV>::empty(),
    decreases rs.len(),
{
    if rs.len() > 0 {
        assert(forall|i: int|
            0 <= i < rs.drop_last().len() ==> (#[trigger] rs.drop_last()[i]) == rs[i]);
        lemma_right_no_extras(rs.drop_last(), lmap);
        assert(rs[rs.len() - 1] == rs.last());
        assert(right_only_diffs(rs, lmap) =~= Seq::<DiffV>::empty());
    }
}

/// Two identical snapshots (same paths, sizes and timestamps) diff to
/// nothing: no metadata diffs, and nothing handed to the comparator.
pub proof fn lemma_identical_snapshots_empty_diff(l: Seq<RecordV>, r: Seq<RecordV>)
    requires
        distinct_paths(l),
        distinct_paths(r),
        snap_map(l) == snap_map(r),
    ensures
        metadata_diffs(l, r) == Seq::<DiffV>::empty(),
        left_pendings(l, snap_map(r)) == Seq::<PendingV>::empty(),
{
    assert forall|i: int| 0 <= i < l.len() implies snap_map(r).contains_key((#[trigger] l[i]).path)
        && snap_map(r)[l[i].path] == l[i].meta by {
        lemma_snap_map_at(l, i);
    }
    lemma_left_no_changes(l, snap_map(r));
    assert forall|i: int| 0 <= i < r.len() implies snap_map(l).contains_key(
        (#[trigger] r[i]).path,
    ) by {
        lemma_snap_map_at(r, i);
    }
    lemma_right_no_extras(r, snap_map(l));
    assert(metadata_diffs(l, r) =~= Seq::<DiffV>::empty());
}

/// Two trees with identical metadata produce an empty diff list outright:
/// their contents are never even compared.
pub proof fn lemma_identical_metadata_empty_tree_diff(
    l: Seq<StoredV>,
    r: Seq<StoredV>,
    force_full: bool,
)
    requires
        distinct_file_paths(l),
        distinct_file_paths(r),
        snap_map(snap_of(l)) == snap_map(snap_of(r)),
    ensures
        tree_diffs(l, r, force_full) == Seq::<DiffV>::empty(),
{
    lemma_snap_of_distinct(l);
    lemma_snap_of_distinct(r);
    lemma_identical_snapshots_empty_diff(snap_of(l), snap_of(r));
    let ps = left_pendings(snap_of(l), snap_map(snap_of(r)));
    assert(ps.len() == 0);
    assert(tree_diffs(l, r, force_full) =~= Seq::<DiffV>::empty());
}

/// Every path of either snapshot appears in at most one diff of the full
/// diff list.
pub proof fn lemma_each_path_at_most_one_diff(l: Seq<StoredV>, r: Seq<StoredV>, force_full: bool)
    requires
        distinct_file_paths(l),
        distinct_file_paths(r),
    ensures
        forall|k1: int, k2: int|
            0 <= k1 < k2 < tree_diffs(l, r, force_full).len() ==> (#[trigger] tree_diffs(
                l,
                r,
                force_full,
            )[k1]).path != (#[trigger] tree_diffs(l, r, force_full)[k2]).path,
{
    let ls = snap_of(l);
    let rs = snap_of(r);
    let lmapm = snap_map(ls);
    let rmapm = snap_map(rs);
    let ps = left_pendings(ls, rmapm);
    let vs = tree_verdicts(store_map(l), store_map(r), ps, force_full);
    let la = left_diffs(ls, rmapm);
    let ra = right_only_diffs(rs, lmapm);
    let res = resolved_diffs(ps, vs);
    let ds = tree_diffs(l, r, force_full);
    lemma_snap_of_distinct(l);
    lemma_snap_of_distinct(r);
    lemma_left_outputs_unique(ls, rmapm);
    lemma_right_only_unique(rs, lmapm);
    lemma_resolved_unique(ps, vs);
    lemma_left_diffs_member(ls, rmapm);
    lemma_left_pendings_member(ls, rmapm);
    lemma_right_only_member(rs, lmapm);
    lemma_resolved_member(ps, vs);
    assert(ds =~= la + ra + res);
    assert forall|k1: int, k2: int| 0 <= k1 < k2 < ds.len() implies (#[trigger] ds[k1]).path != (
    #[trigger] ds[k2]).path by {
        let d1 = ds[k1];
        let d2 = ds[k2];
        let g1: int = if k1 < la.len() { 0 } else if k1 < la.len() + ra.len() { 1 } else { 2 };
        let g2: int = if k2 < la.len() { 0 } else if k2 < la.len() + ra.len() { 1 } else { 2 };
        if g1 == 0 { assert(d1 == la[k1]); }
        if g1 == 1 { assert(d1 == ra[k1 - la.len()]); }
        if g1 == 2 { assert(d1 == res[k1 - la.len() - ra.len()]); }
        if g2 == 0 { assert(d2 == la[k2]); }
        if g2 == 1 { assert(d2 == ra[k2 - la.len()]); }
        if g2 == 2 { assert(d2 == res[k2 - la.len() - ra.len()]); }
        if g1 == g2 {
            // within one group the group's own uniqueness applies
        } else if g1 == 0 && g2 == 1 {
            // a left diff's path is a left entry's; a right-only diff's is absent there
            let i = choose|i: int|
                0 <= i < ls.len() && (#[trigger] left_entry_diffs(ls[i], rmapm)).len() > 0 && d1
                    == left_entry_diffs(ls[i], rmapm)[0] && ls[i].path == d1.path;
            lemma_snap_map_contains(ls, d1.path);
            let j = choose|j: int|
                0 <= j < rs.len() && (#[trigger] right_entry_diffs(rs[j], lmapm)).len() > 0 && d2
                    == right_entry_diffs(rs[j], lmapm)[0] && rs[j].path == d2.path;
            assert(!lmapm.contains_key(d2.path));
        } else if g1 == 0 && g2 == 2 {
            // a resolved diff's path is a pending path; pending and left-diff
            // paths never meet
            let j = choose|j: int|
                0 <= j < ps.len() && (#[trigger] resolved_entry(ps[j], vs[j])).len() > 0 && d2
                    == resolved_entry(ps[j], vs[j])[0] && ps[j].path == d2.path;
            assert(la[k1].path != ps[j].path);
        } else if g1 == 1 && g2 == 2 {
            // a pending path is a left entry's path; a right-only diff's is
            // absent on the left
            let j = choose|j: int|
                0 <= j < ps.len() && (#[trigger] resolved_entry(ps[j], vs[j])).len() > 0 && d2
                    == resolved_entry(ps[j], vs[j])[0] && ps[j].path == d2.path;
            let i = choose|i: int|
                0 <= i < ls.len() && (#[trigger] left_entry_pending(ls[i], rmapm)).len() > 0
                    && ps[j] == left_entry_pending(ls[i], rmapm)[0] && ls[i].path == ps[j].path;
            lemma_snap_map_contains(ls, d2.path);
            let jr = choose|jr: int|
                0 <= jr < rs.len() && (#[trigger] right_entry_diffs(rs[jr], lmapm)).len() > 0 && d1
                    == right_entry_diffs(rs[jr], lmapm)[0] && rs[jr].path == d1.path;
            assert(!lmapm.contains_key(d1.path));
        }
    }
}

/// A path present only under the left root yields exactly its one
/// `OnlyInLeft` diff: such a diff for it exists, and (by
/// `lemma_each_path_at_most_one_diff`) no path is ever named twice.
pub proof fn lemma_only_in_left_one_diff(
    l: Seq<StoredV>,
    r: Seq<StoredV>,
    p: Seq<char>,
    force_full: bool,
)
    requires
        distinct_file_paths(l),
        distinct_file_paths(r),
        store_map(l).contains_key(p),
        !store_map(r).contains_key(p),
    ensures
        exists|k: int|
            0 <= k < tree_diffs(l, r, force_full).len() && (#[trigger] tree_diffs(
                l,
                r,
                force_full,
            )[k]) == (DiffV { path: p, diff_type: DiffType::OnlyInLeft }),
{
    let ls = snap_of(l);
    let rs = snap_of(r);
    let rmapm = snap_map(rs);
    lemma_store_map_contains(l, p);
    let i = choose|i: int| 0 <= i < l.len() && l[i].path == p;
    assert(ls[i].path == p);
    lemma_snap_of_contains(r, p);
    assert(!rmapm.contains_key(p));
    assert(left_entry_diffs(ls[i], rmapm) == seq![
        DiffV { path: p, diff_type: DiffType::OnlyInLeft },
    ]);
    lemma_left_diffs_has(ls, rmapm, i);
    let k = choose|k: int|
        0 <= k < left_diffs(ls, rmapm).len() && (#[trigger] left_diffs(ls, rmapm)[k])
            == left_entry_diffs(ls[i], rmapm)[0];
    assert(tree_diffs(l, r, force_full)[k] == left_diffs(ls, rmapm)[k]);
}

/// A path absent from both trees is never named by any diff.
pub proof fn lemma_unrelated_path_no_diff(
    l: Seq<StoredV>,
    r: Seq<StoredV>,
    p: Seq<char>,
    force_full: bool,
)
    requires
        !store_map(l).contains_key(p),
        !store_map(r).contains_key(p),
    ensures
        forall|k: int|
            0 <= k < tree_diffs(l, r, force_full).len() ==> (#[trigger] tree_diffs(
                l,
                r,
                force_full,
            )[k]).path != p,
{
    let ls = snap_of(l);
    let rs = snap_of(r);
    let lmapm = snap_map(ls);
    let rmapm = snap_map(rs);
    let ps = left_pendings(ls, rmapm);
    let vs = tree_verdicts(store_map(l), store_map(r), ps, force_full);
    let la = left_diffs(ls, rmapm);
    let ra = right_only_diffs(rs, lmapm);
    let res = resolved_diffs(ps, vs);
    let ds = tree_diffs(l, r, force_full);
    lemma_left_diffs_member(ls, rmapm);
    lemma_left_pendings_member(ls, rmapm);
    lemma_right_only_member(rs, lmapm);
    lemma_resolved_member(ps, vs);
    lemma_store_map_contains(l, p);
    lemma_store_map_contains(r, p);
    assert(ds =~= la + ra + res);
    assert forall|k: int| #![trigger ds[k]] 0 <= k < ds.len() implies ds[k].path != p by {
        if k < la.len() {
            assert(ds[k] == la[k]);
            let i = choose|i: int|
                0 <= i < ls.len() && (#[trigger] left_entry_diffs(ls[i], rmapm)).len() > 0 && la[k]
                    == left_entry_diffs(ls[i], rmapm)[0] && ls[i].path == la[k].path;
            assert(l[i].path == ls[i].path);
        } else if k < la.len() + ra.len() {
            assert(ds[k] == ra[k - la.len()]);
            let j = choose|j: int|
                0 <= j < rs.len() && (#[trigger] right_entry_diffs(rs[j], lmapm)).len() > 0 && ra[k
                    - la.len()] == right_entry_diffs(rs[j], lmapm)[0] && rs[j].path == ra[k
                    - la.len()].path;
            assert(r[j].path == rs[j].path);
        } else {
            assert(ds[k] == res[k - la.len() - ra.len()]);
            let j = choose|j: int|
                0 <= j < ps.len() && (#[trigger] resolved_entry(ps[j], vs[j])).len() > 0 && res[k
                    - la.len() - ra.len()] == resolved_entry(ps[j], vs[j])[0] && ps[j].path == res[k
                    - la.len() - ra.len()].path;
            let i = choose|i: int|
                0 <= i < ls.len() && (#[trigger] left_entry_pending(ls[i], rmapm)).len() > 0
                    && ps[j] == left_entry_pending(ls[i], rmapm)[0] && ls[i].path == ps[j].path;
            assert(l[i].path == ls[i].path);
        }
    }
}

/// A same-size pair with differing timestamps and differing content is
/// reported: where the comparator's tier sees the difference (exact bytes in
/// the small tier; digests elsewhere, which is the system's documented
/// notion of content equality), a `Different` diff for the path exists.
pub proof fn lemma_content_change_detected(
    l: Seq<StoredV>,
    r: Seq<StoredV>,
    p: Seq<char>,
    force_full: bool,
)
    requires
        distinct_file_paths(l),
        distinct_file_paths(r),
        store_map(l).contains_key(p),
        store_map(r).contains_key(p),
        store_map(l)[p].content.len() == store_map(r)[p].content.len(),
        store_map(l)[p].mtime != store_map(r)[p].mtime,
        store_map(l)[p].content != store_map(r)[p].content,
        force_full || store_map(l)[p].content.len() < SAMPLE_MIN,
        store_map(l)[p].content.len() >= SMALL_MAX ==> blake3_of(store_map(l)[p].content)
            != blake3_of(store_map(r)[p].content),
    ensures
        exists|k: int|
            0 <= k < tree_diffs(l, r, force_full).len() && (#[trigger] tree_diffs(
                l,
                r,
                force_full,
            )[k]).path == p && tree_diffs(l, r, force_full)[k].diff_type is Different,
{
    let ls = snap_of(l);
    let rs = snap_of(r);
    let lmapm = snap_map(ls);
    let rmapm = snap_map(rs);
    let ps = left_pendings(ls, rmapm);
    let vs = tree_verdicts(store_map(l), store_map(r), ps, force_full);
    let la = left_diffs(ls, rmapm);
    let ra = right_only_diffs(rs, lmapm);
    let res = resolved_diffs(ps, vs);
    lemma_snap_of_distinct(l);
    lemma_snap_of_distinct(r);
    lemma_store_map_contains(l, p);
    let i = choose|i: int| 0 <= i < l.len() && l[i].path == p;
    lemma_store_map_at(l, i);
    assert(ls[i].path == p);
    lemma_store_map_contains(r, p);
    let j = choose|j: int| 0 <= j < r.len() && r[j].path == p;
    lemma_store_map_at(r, j);
    assert(rs[j].path == p);
    lemma_snap_map_at(rs, j);
    assert(rmapm.contains_key(p));
    assert(rmapm[p] == record_of(r[j]).meta);
    assert(needs_content(ls[i].meta, rmapm[p]));
    assert(left_entry_pending(ls[i], rmapm).len() > 0);
    lemma_left_pendings_has(ls, rmapm, i);
    let k = choose|k: int|
        0 <= k < ps.len() && (#[trigger] ps[k]) == left_entry_pending(ls[i], rmapm)[0];
    assert(ps[k].path == p);
    assert(vs[k] == tree_verdict(store_map(l), store_map(r), ps[k], force_full));
    assert(!contents_match(store_map(l)[p].content, store_map(r)[p].content, force_full));
    assert(vs[k] is Changed);
    lemma_resolved_has(ps, vs, k);
    let m = choose|m: int|
        0 <= m < res.len() && (#[trigger] res[m]) == resolved_entry(ps[k], vs[k])[0];
    let kk = la.len() + ra.len() + m;
    assert(tree_diffs(l, r, force_full)[kk] == res[m]);
    assert(tree_diffs(l, r, force_full)[kk].path == p);
}

/// A same-size pair whose timestamps agree bit for bit is taken as
/// identical without looking at content: no diff names its path.  This is
/// the documented metadata heuristic.
pub proof fn lemma_equal_metadata_skips_content(
    l: Seq<StoredV>,
    r: Seq<StoredV>,
    p: Seq<char>,
    force_full: bool,
)
    requires
        distinct_file_paths(l),
        distinct_file_paths(r),
        store_map(l).contains_key(p),
        store_map(r).contains_key(p),
        store_map(l)[p].content.len() == store_map(r)[p].content.len(),
        store_map(l)[p].mtime == store_map(r)[p].mtime,
    ensures
        forall|k: int|
            0 <= k < tree_diffs(l, r, force_full).len() ==> (#[trigger] tree_diffs(
                l,
                r,
                force_full,
            )[k]).path != p,
{
    let ls = snap_of(l);
    let rs = snap_of(r);
    let lmapm = snap_map(ls);
    let rmapm = snap_map(rs);
    let ps = left_pendings(ls, rmapm);
    let vs = tree_verdicts(store_map(l), store_map(r), ps, force_full);
    let la = left_diffs(ls, rmapm);
    let ra = right_only_diffs(rs, lmapm);
    let res = resolved_diffs(ps, vs);
    let ds = tree_diffs(l, r, force_full);
    lemma_snap_of_distinct(l);
    lemma_snap_of_distinct(r);
    lemma_left_diffs_member(ls, rmapm);
    lemma_left_pendings_member(ls, rmapm);
    lemma_right_only_member(rs, lmapm);
    lemma_resolved_member(ps, vs);
    lemma_store_map_contains(l, p);
    let il = choose|il: int| 0 <= il < l.len() && l[il].path == p;
    lemma_store_map_at(l, il);
    assert(ls[il].path == p);
    lemma_store_map_contains(r, p);
    let jr = choose|jr: int| 0 <= jr < r.len() && r[jr].path == p;
    lemma_store_map_at(r, jr);
    assert(rs[jr].path == p);
    lemma_snap_map_at(rs, jr);
    lemma_snap_map_at(ls, il);
    assert(rmapm.contains_key(p) && rmapm[p] == record_of(r[jr]).meta);
    assert(lmapm.contains_key(p) && lmapm[p] == record_of(l[il]).meta);
    assert(ds =~= la + ra + res);
    assert forall|k: int| #![trigger ds[k]] 0 <= k < ds.len() implies ds[k].path != p by {
        if k < la.len() {
            assert(ds[k] == la[k]);
            if la[k].path == p {
                let i = choose|i: int|
                    0 <= i < ls.len() && (#[trigger] left_entry_diffs(ls[i], rmapm)).len() > 0
                        && la[k] == left_entry_diffs(ls[i], rmapm)[0] && ls[i].path == la[k].path;
                if i != il {
                    assert(ls[i].path == ls[il].path);
                    assert(false);
                }
                assert(left_entry_diffs(ls[il], rmapm).len() == 0);
                assert(false);
            }
        } else if k < la.len() + ra.len() {
            assert(ds[k] == ra[k - la.len()]);
            if ra[k - la.len()].path == p {
                let jj = choose|jj: int|
                    0 <= jj < rs.len() && (#[trigger] right_entry_diffs(rs[jj], lmapm)).len() > 0
                        && ra[k - la.len()] == right_entry_diffs(rs[jj], lmapm)[0] && rs[jj].path
                        == ra[k - la.len()].path;
                assert(!lmapm.contains_key(p));
                assert(false);
            }
        } else {
            assert(ds[k] == res[k - la.len() - ra.len()]);
            if res[k - la.len() - ra.len()].path == p {
                let jp = choose|jp: int|
                    0 <= jp < ps.len() && (#[trigger] resolved_entry(ps[jp], vs[jp])).len() > 0
                        && res[k - la.len() - ra.len()] == resolved_entry(ps[jp], vs[jp])[0]
                        && ps[jp].path == res[k - la.len() - ra.len()].path;
                let i = choose|i: int|
                    0 <= i < ls.len() && (#[trigger] left_entry_pending(ls[i], rmapm)).len() > 0
                        && ps[jp] == left_entry_pending(ls[i], rmapm)[0] && ls[i].path
                        == ps[jp].path;
                if i != il {
                    assert(ls[i].path == ls[il].path);
                    assert(false);
                }
                assert(!needs_content(ls[il].meta, rmapm[p]));
                assert(false);
            }
        }
    }
}

/// The diff engine is a pure function of its inputs: the same two trees
/// always yield the very same diff list, run after run.
pub proof fn lemma_diff_engine_deterministic(
    l1: Seq<StoredV>,
    r1: Seq<StoredV>,
    l2: Seq<StoredV>,
    r2: Seq<StoredV>,
    force_full: bool,
)
    requires
        l1 == l2,
        r1 == r2,
    ensures
        tree_diffs(l1, r1, force_full) == tree_diffs(l2, r2, force_full),
{
}

} // verus!
