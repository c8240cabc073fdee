//! In-memory file stores: relative paths mapped to contents and timestamps.
//!
//! A `FileStore` stands for the files of one root directory as plain values.
//! The diff engine compares two stores end to end, and the sync executor and
//! rollback engine mutate them; the surrounding application mirrors those
//! mutations onto the real filesystem.

use vstd::prelude::*;
use crate::snapshot::{FileMeta, RecordV, Snapshot};
use crate::snapshot::{lemma_snap_map_contains};

verus! {

/// One stored file: a slash-normalized relative path, its content, and its
/// modification time (`None` where unknown).
#[derive(Debug)]
pub struct StoredFile {
    pub path: String,
    pub content: Vec<u8>,
    pub mtime: Option<u64>,
}

/// What one path maps to: a content and a timestamp.
pub ghost struct FileV {
    pub content: Seq<u8>,
    pub mtime: Option<u64>,
}

/// Mathematical image of one stored file.
pub ghost struct StoredV {
    pub path: Seq<char>,
    pub content: Seq<u8>,
    pub mtime: Option<u64>,
}

impl View for StoredFile {
    type V = StoredV;

    open spec fn view(&self) -> StoredV {
        StoredV { path: self.path@, content: self.content@, mtime: self.mtime }
    }
}

/// The value a stored file contributes to the path map.
pub open spec fn file_of(f: StoredV) -> FileV {
    FileV { content: f.content, mtime: f.mtime }
}

/// The snapshot entry a stored file gives rise to: its size is the length of
/// its content.
pub open spec fn record_of(f: StoredV) -> RecordV {
    RecordV { path: f.path, meta: FileMeta { size: f.content.len() as u64, mtime: f.mtime } }
}

/// The path-to-file map described by a sequence of stored files (a later
/// entry wins, though a well-formed store never repeats a path).
pub open spec fn store_map(s: Seq<StoredV>) -> Map<Seq<char>, FileV>
    decreases s.len(),
{
    if s.len() == 0 {
        Map::empty()
    } else {
        store_map(s.drop_last()).insert(s.last().path, file_of(s.last()))
    }
}

/// No two stored files share a path.
pub open spec fn distinct_file_paths(s: Seq<StoredV>) -> bool {
    forall|i: int, j: int| 0 <= i < j < s.len() ==> s[i].path != s[j].path
}

/// A path is in the map exactly when some stored file carries it.
pub proof fn lemma_store_map_contains(s: Seq<StoredV>, p: Seq<char>)
    ensures
        store_map(s).contains_key(p) <==> exists|i: int| 0 <= i < s.len() && s[i].path == p,
    decreases s.len(),
{
    if s.len() > 0 {
        lemma_store_map_contains(s.drop_last(), p);
        if store_map(s).contains_key(p) {
            if s.last().path == p {
                assert(s[s.len() - 1].path == p);
            } else {
                let i = choose|i: int| 0 <= i < s.drop_last().len() && s.drop_last()[i].path == p;
                assert(s[i].path == p);
            }
        }
        if exists|i: int| 0 <= i < s.len() && s[i].path == p {
            let i = choose|i: int| 0 <= i < s.len() && s[i].path == p;
            if i < s.len() - 1 {
                assert(s.drop_last()[i].path == p);
            }
        }
    }
}

/// In a duplicate-free sequence, each stored file's path maps to its value.
pub proof fn lemma_store_map_at(s: Seq<StoredV>, i: int)
    requires
        distinct_file_paths(s),
        0 <= i < s.len(),
    ensures
        store_map(s).contains_key(s[i].path),
        store_map(s)[s[i].path] == file_of(s[i]),
    decreases s.len(),
{
    if i == s.len() - 1 {
    } else {
        assert(distinct_file_paths(s.drop_last()));
        assert(s.drop_last()[i] == s[i]);
        lemma_store_map_at(s.drop_last(), i);
        assert(s[i].path != s.last().path);
    }
}

/// Overwriting the entry at a path's index updates that path's value.
pub proof fn lemma_store_map_update(s: Seq<StoredV>, i: int, f: StoredV)
    requires
        distinct_file_paths(s),
        0 <= i < s.len(),
        f.path == s[i].path,
    ensures
        store_map(s.update(i, f)) == store_map(s).insert(f.path, file_of(f)),
        distinct_file_paths(s.update(i, f)),
    decreases s.len(),
{
    let t = s.update(i, f);
    assert(distinct_file_paths(t));
    if i == s.len() - 1 {
        assert(t.drop_last() =~= s.drop_last());
        assert(t.last() == f);
        assert(store_map(t) =~= store_map(s).insert(f.path, file_of(f)));
    } else {
        assert(t.drop_last() =~= s.drop_last().update(i, f));
        assert(distinct_file_paths(s.drop_last()));
        assert(s.drop_last()[i] == s[i]);
        lemma_store_map_update(s.drop_last(), i, f);
        assert(t.last() == s.last());
        assert(f.path != s.last().path);
        assert(store_map(t) =~= store_map(s).insert(f.path, file_of(f)));
    }
}

/// Removing the entry at a path's index removes that path from the map.
pub proof fn lemma_store_map_remove(s: Seq<StoredV>, i: int)
    requires
        distinct_file_paths(s),
        0 <= i < s.len(),
    ensures
        store_map(s.remove(i)) == store_map(s).remove(s[i].path),
        distinct_file_paths(s.remove(i)),
    decreases s.len(),
{
    let t = s.remove(i);
    assert(distinct_file_paths(t));
    if i == s.len() - 1 {
        assert(t =~= s.drop_last());
        lemma_store_map_contains(s.drop_last(), s[i].path);
        assert(!store_map(s.drop_last()).contains_key(s[i].path));
        assert(store_map(t) =~= store_map(s).remove(s[i].path));
    } else {
        assert(t.drop_last() =~= s.drop_last().remove(i));
        assert(distinct_file_paths(s.drop_last()));
        assert(s.drop_last()[i] == s[i]);
        lemma_store_map_remove(s.drop_last(), i);
        assert(t.last() == s.last());
        assert(s[i].path != s.last().path);
        assert(store_map(t) =~= store_map(s).remove(s[i].path));
    }
}

/// The files of one root directory, held in memory as plain values.
#[derive(Debug)]
pub struct FileStore {
    files: Vec<StoredFile>,
}

impl View for FileStore {
    type V = Seq<StoredV>;

    closed spec fn view(&self) -> Seq<StoredV> {
        self.files@.map_values(|f: StoredFile| f@)
    }
}

impl FileStore {
    /// Well-formed: no path occurs twice.
    pub open spec fn wf(&self) -> bool {
        distinct_file_paths(self@)
    }

    /// The mapping from path to file that this store represents.
    pub open spec fn as_map(&self) -> Map<Seq<char>, FileV> {
        store_map(self@)
    }

    /// An empty store.
    pub fn new() -> (s: FileStore)
        ensures
            s@ == Seq::<StoredV>::empty(),
            s.wf(),
    {
        let s = FileStore { files: Vec::new() };
        proof {
            assert(s@ =~= Seq::<StoredV>::empty());
        }
        s
    }

    /// Number of files.
    pub fn len(&self) -> (n: usize)
        ensures
            n == self@.len(),
    {
        self.files.len()
    }

    /// The file at a position.
    pub fn file_at(&self, i: usize) -> (f: &StoredFile)
        requires
            i < self@.len(),
        ensures
            f@ == self@[i as int],
    {
        &self.files[i]
    }

    /// The position of the file that carries a path, if any does.
    pub fn find(&self, path: &String) -> (r: Option<usize>)
        ensures
            match r {
                Some(i) => i < self@.len() && self@[i as int].path == path@,
                None => !self.as_map().contains_key(path@),
            },
    {
        let n = self.files.len();
        for i in 0..n
            invariant
                n == self@.len(),
                forall|j: int| 0 <= j < i ==> self@[j].path != path@,
        {
            if self.files[i].path == *path {
                return Some(i);
            }
        }
        proof {
            lemma_store_map_contains(self@, path@);
        }
        None
    }

    /// The file stored at a path, if the path is present.
    pub fn get(&self, path: &String) -> (r: Option<&StoredFile>)
        requires
            self.wf(),
        ensures
            match r {
                Some(f) => self.as_map().contains_key(path@) && self.as_map()[path@] == file_of(
                    f@,
                ) && f@.path == path@,
                None => !self.as_map().contains_key(path@),
            },
    {
        match self.find(path) {
            Some(i) => {
                proof {
                    lemma_store_map_at(self@, i as int);
                }
                Some(&self.files[i])
            },
            None => None,
        }
    }

    /// Whether a path is present.
    pub fn contains_path(&self, path: &String) -> (b: bool)
        ensures
            b == self.as_map().contains_key(path@),
    {
        let r = self.find(path);
        proof {
            if r is Some {
                lemma_store_map_contains(self@, path@);
            }
        }
        r.is_some()
    }

    /// Write a file: overwrite the entry at an existing path, or add a new
    /// one.
    pub fn upsert(&mut self, path: String, content: Vec<u8>, mtime: Option<u64>)
        requires
            old(self).wf(),
        ensures
            final(self).wf(),
            final(self).as_map() == old(self).as_map().insert(
                path@,
                FileV { content: content@, mtime },
            ),
            !old(self).as_map().contains_key(path@) ==> final(self)@ == old(self)@.push(
                StoredV { path: path@, content: content@, mtime },
            ),
            forall|i: int|
                0 <= i < old(self)@.len() && old(self)@[i].path == path@ ==> final(self)@ == old(
                    self,
                )@.update(i, StoredV { path: path@, content: content@, mtime }),
    {
        let ghost fv = StoredV { path: path@, content: content@, mtime };
        let ghost pre = self@;
        match self.find(&path) {
            Some(i) => {
                let f = StoredFile { path, content, mtime };
                self.files.set(i, f);
                proof {
                    assert(self@ =~= pre.update(i as int, fv));
                    lemma_store_map_update(pre, i as int, fv);
                    lemma_store_map_contains(pre, fv.path);
                    assert(pre[i as int].path == fv.path);
                    assert forall|j: int|
                        0 <= j < pre.len() && pre[j].path == fv.path implies j == i as int by {
                        if j < i as int {
                            assert(pre[j].path != pre[i as int].path);
                        } else if j > i as int {
                            assert(pre[i as int].path != pre[j].path);
                        }
                    }
                }
            },
            None => {
                let f = StoredFile { path, content, mtime };
                self.files.push(f);
                proof {
                    assert(self@ =~= pre.push(fv));
                    lemma_store_map_contains(pre, fv.path);
                    assert(forall|j: int| 0 <= j < pre.len() ==> pre[j].path != fv.path);
                    assert(distinct_file_paths(self@));
                    assert(self@.drop_last() =~= pre);
                    assert(self.as_map() =~= store_map(pre).insert(fv.path, file_of(fv)));
                }
            },
        }
    }

    /// Remove the file at a path, if the path is present.  Returns whether
    /// anything was removed.
    pub fn remove(&mut self, path: &String) -> (removed: bool)
        requires
            old(self).wf(),
        ensures
            final(self).wf(),
            final(self).as_map() == old(self).as_map().remove(path@),
            removed == old(self).as_map().contains_key(path@),
            !removed ==> final(self)@ == old(self)@,
            forall|i: int|
                0 <= i < old(self)@.len() && old(self)@[i].path == path@ ==> final(self)@ == old(
                    self,
                )@.remove(i),
    {
        let ghost pre = self@;
        match self.find(path) {
            Some(i) => {
                self.files.remove(i);
                proof {
                    assert(self@ =~= pre.remove(i as int));
                    lemma_store_map_remove(pre, i as int);
                    lemma_store_map_contains(pre, path@);
                    assert forall|j: int|
                        0 <= j < pre.len() && pre[j].path == path@ implies j == i as int by {
                        if j < i as int {
                            assert(pre[j].path != pre[i as int].path);
                        } else if j > i as int {
                            assert(pre[i as int].path != pre[j].path);
                        }
                    }
                }
                true
            },
            None => {
                proof {
                    lemma_store_map_contains(pre, path@);
                    assert(self.as_map() =~= store_map(pre).remove(path@));
                }
                false
            },
        }
    }

    /// The metadata snapshot of this store: every path with the size and
    /// timestamp of its file.
    pub fn to_snapshot(&self) -> (s: Snapshot)
        requires
            self.wf(),
        ensures
            s@ == self@.map_values(|f: StoredV| record_of(f)),
            s.wf(),
    {
        let mut s = Snapshot::new();
        let n = self.files.len();
        proof {
            assert(self@.subrange(0, 0).map_values(|f: StoredV| record_of(f)) =~= Seq::<
                RecordV,
            >::empty());
        }
        for i in 0..n
            invariant
                self.wf(),
                n == self@.len(),
                s.wf(),
                s@ == self@.subrange(0, i as int).map_values(|f: StoredV| record_of(f)),
        {
            let f = &self.files[i];
            let meta = FileMeta { size: f.content.len() as u64, mtime: f.mtime };
            proof {
                lemma_snap_map_contains(s@, f@.path);
                assert(forall|j: int|
                    0 <= j < i ==> s@[j].path == self@[j].path && self@[j].path != self@[i as int].path);
            }
            s.insert(f.path.clone(), meta);
            proof {
                assert(s@ =~= self@.subrange(0, i + 1).map_values(|f: StoredV| record_of(f)));
            }
        }
        proof {
            assert(self@.subrange(0, n as int) =~= self@);
        }
        s
    }
}

} // verus!
