//! Snapshots: point-in-time mappings from relative file paths to metadata.

use vstd::prelude::*;

verus! {

/// Size and modification time of one file, as recorded by the snapshot
/// builder.  The timestamp counts nanoseconds since the Unix epoch; it is
/// `None` where the filesystem could not report one.
#[derive(Clone, Copy, Debug)]
pub struct FileMeta {
    pub size: u64,
    pub mtime: Option<u64>,
}

/// One snapshot entry: a slash-normalized relative path with its metadata.
/// The path is the unique key of the entry within its snapshot.
#[derive(Debug)]
pub struct FileRecord {
    pub path: String,
    pub meta: FileMeta,
}

/// Mathematical image of one snapshot entry.
pub ghost struct RecordV {
    pub path: Seq<char>,
    pub meta: FileMeta,
}

impl View for FileRecord {
    type V = RecordV;

    open spec fn view(&self) -> RecordV {
        RecordV { path: self.path@, meta: self.meta }
    }
}

/// The path-to-metadata map described by a sequence of entries (a later
/// entry wins, though a well-formed snapshot never repeats a path).
pub open spec fn snap_map(s: Seq<RecordV>) -> Map<Seq<char>, FileMeta>
    decreases s.len(),
{
    if s.len() == 0 {
        Map::empty()
    } else {
        snap_map(s.drop_last()).insert(s.last().path, s.last().meta)
    }
}

/// No two entries share a path.
pub open spec fn distinct_paths(s: Seq<RecordV>) -> bool {
    forall|i: int, j: int| 0 <= i < j < s.len() ==> s[i].path != s[j].path
}

/// A path is in the map exactly when some entry carries it.
pub proof fn lemma_snap_map_contains(s: Seq<RecordV>, p: Seq<char>)
    ensures
        snap_map(s).contains_key(p) <==> exists|i: int| 0 <= i < s.len() && s[i].path == p,
    decreases s.len(),
{
    if s.len() > 0 {
        lemma_snap_map_contains(s.drop_last(), p);
        if snap_map(s).contains_key(p) {
            if s.last().path == p {
                assert(s[s.len() - 1].path == p);
            } else {
                let i = choose|i: int| 0 <= i < s.drop_last().len() && s.drop_last()[i].path == p;
                assert(s[i].path == p);
            }
        }
        if exists|i: int| 0 <= i < s.len() && s[i].path == p {
            let i = choose|i: int| 0 <= i < s.len() && s[i].path == p;
            if i < s.len() - 1 {
                assert(s.drop_last()[i].path == p);
            }
        }
    }
}

/// In a duplicate-free sequence, each entry's path maps to that entry's
/// metadata.
pub proof fn lemma_snap_map_at(s: Seq<RecordV>, i: int)
    requires
        distinct_paths(s),
        0 <= i < s.len(),
    ensures
        snap_map(s).contains_key(s[i].path),
        snap_map(s)[s[i].path] == s[i].meta,
    decreases s.len(),
{
    if i == s.len() - 1 {
    } else {
        assert(distinct_paths(s.drop_last()));
        assert(s.drop_last()[i] == s[i]);
        lemma_snap_map_at(s.drop_last(), i);
        assert(s[i].path != s.last().path);
    }
}

/// Point-in-time mapping from relative path to metadata for one directory
/// tree.  Built once per comparison and read-only afterwards.
#[derive(Debug)]
pub struct Snapshot {
    files: Vec<FileRecord>,
}

impl View for Snapshot {
    type V = Seq<RecordV>;

    closed spec fn view(&self) -> Seq<RecordV> {
        self.files@.map_values(|r: FileRecord| r@)
    }
}

impl Snapshot {
    /// Well-formed: no path occurs twice.
    pub open spec fn wf(&self) -> bool {
        distinct_paths(self@)
    }

    /// The mapping from path to metadata that this snapshot represents.
    pub open spec fn as_map(&self) -> Map<Seq<char>, FileMeta> {
        snap_map(self@)
    }

    /// An empty snapshot.
    pub fn new() -> (s: Snapshot)
        ensures
            s@ == Seq::<RecordV>::empty(),
            s.wf(),
    {
        let s = Snapshot { files: Vec::new() };
        proof {
            assert(s@ =~= Seq::<RecordV>::empty());
        }
        s
    }

    /// Number of entries.
    pub fn len(&self) -> (n: usize)
        ensures
            n == self@.len(),
    {
        self.files.len()
    }

    /// The entry at a position.
    pub fn record_at(&self, i: usize) -> (r: &FileRecord)
        requires
            i < self@.len(),
        ensures
            r@ == self@[i as int],
    {
        &self.files[i]
    }

    /// Whether some entry carries this path.
    pub fn contains_path(&self, path: &String) -> (b: bool)
        ensures
            b == self.as_map().contains_key(path@),
    {
        let n = self.files.len();
        for i in 0..n
            invariant
                n == self@.len(),
                forall|j: int| 0 <= j < i ==> self@[j].path != path@,
        {
            if self.files[i].path == *path {
                proof {
                    assert(self@[i as int].path == path@);
                    lemma_snap_map_contains(self@, path@);
                }
                return true;
            }
        }
        proof {
            lemma_snap_map_contains(self@, path@);
        }
        false
    }

    /// The metadata recorded for a path, if the path is present.
    pub fn lookup(&self, path: &String) -> (r: Option<FileMeta>)
        requires
            self.wf(),
        ensures
            match r {
                Some(m) => self.as_map().contains_key(path@) && self.as_map()[path@] == m,
                None => !self.as_map().contains_key(path@),
            },
    {
        let n = self.files.len();
        for i in 0..n
            invariant
                self.wf(),
                n == self@.len(),
                forall|j: int| 0 <= j < i ==> self@[j].path != path@,
        {
            if self.files[i].path == *path {
                proof {
                    lemma_snap_map_at(self@, i as int);
                }
                return Some(self.files[i].meta);
            }
        }
        proof {
            lemma_snap_map_contains(self@, path@);
        }
        None
    }

    /// Record a path that the snapshot does not hold yet.  Paths are unique
    /// keys, so the builder asks `contains_path` before inserting.
    pub fn insert(&mut self, path: String, meta: FileMeta)
        requires
            old(self).wf(),
            !old(self).as_map().contains_key(path@),
        ensures
            final(self).wf(),
            final(self)@ == old(self)@.push(RecordV { path: path@, meta }),
            final(self).as_map() == old(self).as_map().insert(path@, meta),
    {
        let ghost r = RecordV { path: path@, meta };
        let ghost pre = self@;
        self.files.push(FileRecord { path, meta });
        proof {
            assert(self@ =~= pre.push(r));
            lemma_snap_map_contains(pre, r.path);
            assert(forall|j: int| 0 <= j < pre.len() ==> pre[j].path != r.path);
            assert(distinct_paths(self@));
            assert(self@.drop_last() =~= pre);
            assert(self.as_map() =~= old(self).as_map().insert(r.path, meta));
        }
    }
}

} // verus!
