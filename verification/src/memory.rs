//! The in-memory backing: a virtual filesystem for deterministic testing.
//!
//! Two coordinated tables model the tree: a directory table from each
//! directory to its set of children, and a file table from each path to its
//! entry (a directory marker or a handle onto a byte buffer). Buffers live
//! in a separate store so that open handles keep aliasing a file's bytes
//! across renames and removals, as shared buffers would.
//!
//! The abstraction of a manager is an [`FsView`]; [`fs_inv`] is the
//! coordination invariant every operation preserves: directory entries and
//! directory-flavoured files coincide, every non-root entry is linked into
//! exactly its parent's child set, and every child link points at a live
//! entry.

use vstd::prelude::*;
use crate::FsError;
use crate::OpenOptions;
use crate::SeekFrom;
use crate::fsync::FSyncBatch;
use crate::fsync::FSyncError;
use crate::fsync::FSyncManager;
use crate::fsync::ThreadState;
use crate::path::PathId;
use crate::path::clone_bytes;
use crate::path::is_under;
use crate::path::lemma_parent_under;
use crate::path::lemma_under_parent;
use crate::path::lemma_under_trans;
use crate::table::AssocMap;

verus! {

/// The canonical segments of the root directory `/`.
pub open spec fn root_key() -> Seq<Seq<u8>> {
    Seq::empty()
}

/// A file-table entry: a directory marker, or a file whose bytes live in
/// the buffer store under `id`.
#[derive(Clone, Copy, Debug)]
pub enum FileNode {
    Directory,
    Buffer { id: usize },
}

/// The mathematical state of the in-memory filesystem: the directory tree,
/// the file table, and the buffer store.
pub struct FsView {
    pub dirs: Map<Seq<Seq<u8>>, Set<Seq<Seq<u8>>>>,
    pub files: Map<Seq<Seq<u8>>, FileNode>,
    pub buffers: Seq<Seq<u8>>,
}

/// The coordination invariant of the two tables and the buffer store.
pub open spec fn fs_inv(s: FsView) -> bool {
    &&& s.files.contains_key(root_key())
    &&& s.files[root_key()] is Directory
    &&& forall|k: Seq<Seq<u8>>| #[trigger]
        s.dirs.contains_key(k) <==> (s.files.contains_key(k) && s.files[k] is Directory)
    &&& forall|k: Seq<Seq<u8>>| #[trigger]
        s.files.contains_key(k) && k.len() > 0 ==> s.dirs.contains_key(k.drop_last())
            && s.dirs[k.drop_last()].contains(k)
    &&& forall|d: Seq<Seq<u8>>, c: Seq<Seq<u8>>|
        s.dirs.contains_key(d) && #[trigger] s.dirs[d].contains(c) ==> s.files.contains_key(c)
            && c.len() > 0 && c.drop_last() == d
    &&& forall|k: Seq<Seq<u8>>| #[trigger]
        s.files.contains_key(k) && s.files[k] is Buffer ==> (s.files[k]->id as int)
            < s.buffers.len()
}

/// The set of canonical keys of a child list.
pub open spec fn child_set(children: Seq<PathId>) -> Set<Seq<Seq<u8>>> {
    Set::new(
        |k: Seq<Seq<u8>>| exists|i: int| 0 <= i < children.len() && (#[trigger] children[i]).key() == k,
    )
}

/// The directory table, with each child list abstracted to its set of keys.
pub open spec fn dir_sets(m: Map<Seq<Seq<u8>>, Vec<PathId>>) -> Map<
    Seq<Seq<u8>>,
    Set<Seq<Seq<u8>>>,
> {
    Map::new(|k: Seq<Seq<u8>>| m.contains_key(k), |k: Seq<Seq<u8>>| child_set(m[k]@))
}

/// A child list is well-formed when its entries are absolute and pairwise
/// distinct.
pub open spec fn child_list_wf(children: Seq<PathId>) -> bool {
    &&& forall|i: int| 0 <= i < children.len() ==> (#[trigger] children[i]).absolute
    &&& forall|a: int, b: int|
        0 <= a < b < children.len() ==> children[a].key() != children[b].key()
}

/// Appending to a child list adds exactly the appended key to its set.
proof fn lemma_child_set_push(s: Seq<PathId>, p: PathId)
    ensures
        child_set(s.push(p)) =~= child_set(s).insert(p.key()),
{
    assert forall|q: Seq<Seq<u8>>| child_set(s.push(p)).contains(q) implies child_set(
        s,
    ).insert(p.key()).contains(q) by {
        let i = choose|i: int| 0 <= i < s.push(p).len() && (#[trigger] s.push(p)[i]).key() == q;
        if i < s.len() {
            assert(s[i].key() == q);
        }
    }
    assert forall|q: Seq<Seq<u8>>| child_set(s).insert(p.key()).contains(q) implies child_set(
        s.push(p),
    ).contains(q) by {
        if q == p.key() {
            assert(s.push(p)[s.len() as int].key() == q);
        } else {
            let i = choose|i: int| 0 <= i < s.len() && (#[trigger] s[i]).key() == q;
            assert(s.push(p)[i].key() == q);
        }
    }
}

/// An empty child list has no keys.
proof fn lemma_child_set_empty()
    ensures
        child_set(Seq::<PathId>::empty()) =~= Set::<Seq<Seq<u8>>>::empty(),
{
}

/// Removing one entry of a well-formed child list removes exactly its key
/// from the set.
proof fn lemma_child_set_remove(s: Seq<PathId>, i: int)
    requires
        0 <= i < s.len(),
        child_list_wf(s),
    ensures
        child_set(s.remove(i)) =~= child_set(s).remove(s[i].key()),
{
    let t = s.remove(i);
    assert forall|q: Seq<Seq<u8>>| child_set(t).contains(q) implies child_set(s).remove(
        s[i].key(),
    ).contains(q) by {
        let j = choose|j: int| 0 <= j < t.len() && (#[trigger] t[j]).key() == q;
        if j < i {
            assert(s[j].key() == q);
        } else {
            assert(s[j + 1].key() == q);
        }
    }
    assert forall|q: Seq<Seq<u8>>| child_set(s).remove(s[i].key()).contains(q) implies child_set(
        t,
    ).contains(q) by {
        let j = choose|j: int| 0 <= j < s.len() && (#[trigger] s[j]).key() == q;
        assert(j != i);
        if j < i {
            assert(t[j].key() == q);
        } else {
            assert(t[j - 1].key() == q);
        }
    }
}

/// Under the coordination invariant the tree is prefix-closed: every proper
/// prefix of a live key is a live directory.
pub proof fn lemma_prefix_closed(s: FsView, q: Seq<Seq<u8>>, i: int)
    requires
        fs_inv(s),
        s.files.contains_key(q),
        0 <= i < q.len(),
    ensures
        s.files.contains_key(q.subrange(0, i)),
        s.files[q.subrange(0, i)] is Directory,
        s.dirs.contains_key(q.subrange(0, i)),
    decreases q.len() - i,
{
    let p = q.drop_last();
    assert(s.dirs.contains_key(p));
    assert(p =~= q.subrange(0, q.len() - 1));
    if i == q.len() - 1 {
    } else {
        lemma_prefix_closed(s, p, i);
        assert(p.subrange(0, i) =~= q.subrange(0, i));
    }
}

/// Remove the entry whose key matches `key` from a child list, if present.
fn unlink_child(list: &mut Vec<PathId>, key: &PathId)
    requires
        child_list_wf(old(list)@),
    ensures
        child_list_wf(final(list)@),
        child_set(final(list)@) =~= child_set(old(list)@).remove(key.key()),
{
    let mut i: usize = 0;
    while i < list.len()
        invariant
            i <= list@.len(),
            child_list_wf(list@),
            *list == *old(list),
            forall|j: int| 0 <= j < i ==> list@[j].key() != key.key(),
        decreases list@.len() - i,
    {
        let ghost pre = list@;
        if list[i].starts_with(key) && key.starts_with(&list[i]) {
            proof {
                assert(pre[i as int].key().subrange(0, pre[i as int].key().len() as int) =~= pre[
                    i as int
                ].key());
                assert(key.key().subrange(0, key.key().len() as int) =~= key.key());
                assert(pre[i as int].key() == key.key());
                lemma_child_set_remove(pre, i as int);
            }
            list.remove(i);
            proof {
                assert forall|a: int, b: int|
                    0 <= a < b < list@.len() implies list@[a].key() != list@[b].key() by {
                    assert(list@ == pre.remove(i as int));
                }
                assert forall|a: int| 0 <= a < list@.len() implies (#[trigger] list@[
                    a
                ]).absolute by {
                    assert(list@ == pre.remove(i as int));
                }
            }
            return ;
        }
        proof {
            if list@[i as int].key() == key.key() {
                assert(key.key().subrange(0, key.key().len() as int) =~= key.key());
                assert(list@[i as int].key().subrange(0, list@[i as int].key().len() as int)
                    =~= list@[i as int].key());
                assert(false);
            }
        }
        i = i + 1;
    }
    proof {
        assert forall|q: Seq<Seq<u8>>| child_set(list@).contains(q) implies child_set(
            list@,
        ).remove(key.key()).contains(q) by {
            let j = choose|j: int| 0 <= j < list@.len() && (#[trigger] list@[j]).key() == q;
            assert(q != key.key());
        }
        assert(child_set(list@) =~= child_set(list@).remove(key.key()));
    }
}

/// A handle onto an entry of the in-memory filesystem.
///
/// A buffer handle carries its own cursor; duplicating a handle yields an
/// independent cursor onto the same shared bytes.
#[derive(Debug)]
pub struct MemoryFile {
    path: PathId,
    backing: Backing,
}

#[derive(Debug)]
enum Backing {
    Directory,
    Buffer { id: usize, cursor: usize },
}

impl MemoryFile {
    /// Whether this handle was opened on a directory.
    pub closed spec fn is_dir_handle(&self) -> bool {
        self.backing is Directory
    }

    /// The buffer this handle aliases (buffer handles only).
    pub closed spec fn buffer_id(&self) -> usize {
        self.backing->id
    }

    /// The handle's cursor (buffer handles only).
    pub closed spec fn cursor(&self) -> nat {
        self.backing->cursor as nat
    }

    /// The canonical key of the path the handle was opened against.
    pub closed spec fn path_key(&self) -> Seq<Seq<u8>> {
        self.path.key()
    }

    /// Whether the recorded path is absolute.
    pub closed spec fn path_abs(&self) -> bool {
        self.path.absolute
    }

    /// A handle onto the byte buffer stored under `buffer`, with a fresh
    /// cursor at the start of the file.
    pub fn new(path: PathId, buffer: usize) -> (r: Self)
        ensures
            !r.is_dir_handle(),
            r.buffer_id() == buffer,
            r.cursor() == 0,
            r.path_key() == path.key(),
            r.path_abs() == path.absolute,
    {
        MemoryFile { path, backing: Backing::Buffer { id: buffer, cursor: 0 } }
    }

    /// A handle onto a directory entry.
    pub fn new_directory(path: PathId) -> (r: Self)
        ensures
            r.is_dir_handle(),
            r.path_key() == path.key(),
            r.path_abs() == path.absolute,
    {
        MemoryFile { path, backing: Backing::Directory }
    }

    /// The path the handle was opened against.
    pub fn path(&self) -> (r: &PathId)
        ensures
            r.key() == self.path_key(),
            r.absolute == self.path_abs(),
    {
        &self.path
    }

    /// Flush the file's contents. In memory this is a no-op that always
    /// succeeds.
    pub fn sync_data(&self) -> (r: Result<(), FsError>)
        ensures
            r.is_ok(),
    {
        Ok(())
    }

    /// Flush the file's contents and metadata. In memory this is a no-op
    /// that always succeeds.
    pub fn sync_all(&self) -> (r: Result<(), FsError>)
        ensures
            r.is_ok(),
    {
        Ok(())
    }

    /// Flush buffered writes. In memory this is a no-op that always
    /// succeeds.
    pub fn flush(&self) -> (r: Result<(), FsError>)
        ensures
            r.is_ok(),
    {
        Ok(())
    }

    /// Whether a buffer handle points into the manager's buffer store.
    pub open spec fn valid_in(&self, s: FsView) -> bool {
        !self.is_dir_handle() ==> (self.buffer_id() as int) < s.buffers.len()
    }

    /// The cursor position a seek asks for, as an unbounded integer; the
    /// most-negative relative offset clamps to the start of the file.
    pub open spec fn seek_target(pos: SeekFrom, cursor: int, len: int) -> int {
        match pos {
            SeekFrom::Start(o) => o as int,
            SeekFrom::End(e) => if e == i64::MIN {
                0
            } else {
                len + e
            },
            SeekFrom::Current(c) => if c == i64::MIN {
                0
            } else {
                cursor + c
            },
        }
    }

    /// The file's current byte length. A directory handle reports zero.
    pub fn len(&self, fs: &MemoryFileManager) -> (r: Result<u64, FsError>)
        ensures
            match r {
                Ok(n) => if self.is_dir_handle() {
                    n == 0
                } else {
                    self.valid_in(fs.view()) && n as int == fs.view().buffers[
                        self.buffer_id() as int
                    ].len()
                },
                Err(e) => e == FsError::Other && !self.is_dir_handle() && !self.valid_in(
                    fs.view(),
                ),
            },
    {
        match &self.backing {
            Backing::Directory => Ok(0),
            Backing::Buffer { id, .. } => {
                if *id < fs.buffers.len() {
                    Ok(fs.buffers[*id].len() as u64)
                } else {
                    Err(FsError::Other)
                }
            },
        }
    }

    /// Whether the file is empty. A directory handle reports `true`.
    pub fn is_empty(&self, fs: &MemoryFileManager) -> (r: Result<bool, FsError>)
        ensures
            match r {
                Ok(b) => if self.is_dir_handle() {
                    b
                } else {
                    self.valid_in(fs.view()) && b == (fs.view().buffers[
                        self.buffer_id() as int
                    ].len() == 0)
                },
                Err(e) => e == FsError::Other && !self.is_dir_handle() && !self.valid_in(
                    fs.view(),
                ),
            },
    {
        match self.len(fs) {
            Ok(n) => Ok(n == 0),
            Err(e) => Err(e),
        }
    }

    /// Truncate or zero-extend the file to `new_length` bytes. If this
    /// handle's cursor sits past the new length it moves to the new end.
    ///
    /// Fails with the unsupported-kind error on a directory handle, and
    /// with the other-kind error when the length does not fit the platform
    /// or the handle is stale.
    pub fn set_len(&mut self, fs: &mut MemoryFileManager, new_length: u64) -> (r: Result<
        (),
        FsError,
    >)
        requires
            old(fs).wf(),
        ensures
            final(fs).wf(),
            final(fs).view().files == old(fs).view().files,
            final(fs).view().dirs == old(fs).view().dirs,
            final(fs).fsync_state() == old(fs).fsync_state(),
            final(self).is_dir_handle() == old(self).is_dir_handle(),
            final(self).buffer_id() == old(self).buffer_id(),
            final(self).path_key() == old(self).path_key(),
            final(self).path_abs() == old(self).path_abs(),
            match r {
                Ok(()) => {
                    &&& !old(self).is_dir_handle()
                    &&& old(self).valid_in(old(fs).view())
                    &&& new_length <= usize::MAX
                    &&& {
                        let oldb = old(fs).view().buffers[old(self).buffer_id() as int];
                        let nb = final(fs).view().buffers[old(self).buffer_id() as int];
                        &&& final(fs).view().buffers == old(fs).view().buffers.update(
                            old(self).buffer_id() as int,
                            nb,
                        )
                        &&& nb.len() == new_length
                        &&& forall|i: int|
                            0 <= i < new_length ==> nb[i] == (if i < oldb.len() {
                                oldb[i]
                            } else {
                                0u8
                            })
                        &&& final(self).cursor() == if old(self).cursor() > new_length {
                            new_length as nat
                        } else {
                            old(self).cursor()
                        }
                    }
                },
                Err(e) => final(fs).view() == old(fs).view() && final(self).cursor() == old(
                    self,
                ).cursor() && match e {
                    FsError::Unsupported => old(self).is_dir_handle(),
                    FsError::Other => !old(self).is_dir_handle() && (!old(self).valid_in(
                        old(fs).view(),
                    ) || new_length > usize::MAX),
                    _ => false,
                },
            },
    {
        let (id, cursor) = match &self.backing {
            Backing::Directory => {
                return Err(FsError::Unsupported);
            },
            Backing::Buffer { id, cursor } => (*id, *cursor),
        };
        if id >= fs.buffers.len() {
            return Err(FsError::Other);
        }
        if new_length > usize::MAX as u64 {
            return Err(FsError::Other);
        }
        let ghost pre = fs.view();
        let nl = new_length as usize;
        let oldb = &fs.buffers[id];
        let mut nb: Vec<u8> = Vec::new();
        let mut i: usize = 0;
        while i < nl
            invariant
                i <= nl,
                nl <= usize::MAX,
                oldb == &old(fs).buffers[id as int],
                id < old(fs).buffers@.len(),
                nb@.len() == i,
                forall|j: int|
                    0 <= j < i ==> nb@[j] == (if j < oldb@.len() {
                        oldb@[j]
                    } else {
                        0u8
                    }),
            decreases nl - i,
        {
            if i < oldb.len() {
                nb.push(oldb[i]);
            } else {
                nb.push(0);
            }
            i = i + 1;
        }
        let ghost nbv = nb@;
        fs.buffers[id] = nb;
        let new_cursor = if cursor > nl {
            nl
        } else {
            cursor
        };
        self.backing = Backing::Buffer { id, cursor: new_cursor };
        proof {
            assert(fs.buffers@ == old(fs).buffers@.update(id as int, fs.buffers@[id as int]));
            assert(fs.buffers@[id as int].deep_view() =~= nbv);
            assert(old(fs).buffers@[id as int].deep_view() =~= old(fs).buffers@[id as int]@);
            assert(fs.view().buffers =~~= pre.buffers.update(id as int, nbv));
            assert(fs.view().files == pre.files);
            assert(fs.view().dirs =~= pre.dirs);
            assert(fs.view().buffers.len() == pre.buffers.len());
            assert(fs_inv(fs.view()));
        }
        Ok(())
    }

    /// Read up to `max` bytes from the cursor, advancing it by the number
    /// of bytes returned. At or past end-of-file the read is empty.
    ///
    /// Fails with the unsupported-kind error on a directory handle and with
    /// the other-kind error on a stale handle.
    pub fn read(&mut self, fs: &MemoryFileManager, max: usize) -> (r: Result<Vec<u8>, FsError>)
        ensures
            final(self).is_dir_handle() == old(self).is_dir_handle(),
            final(self).buffer_id() == old(self).buffer_id(),
            final(self).path_key() == old(self).path_key(),
            final(self).path_abs() == old(self).path_abs(),
            match r {
                Ok(v) => {
                    &&& !old(self).is_dir_handle()
                    &&& old(self).valid_in(fs.view())
                    &&& {
                        let buf = fs.view().buffers[old(self).buffer_id() as int];
                        let p = old(self).cursor() as int;
                        if p > buf.len() {
                            v@ == Seq::<u8>::empty() && final(self).cursor() == old(self).cursor()
                        } else {
                            let take = vstd::math::min(buf.len() - p, max as int);
                            v@ == buf.subrange(p, p + take) && final(self).cursor() == (p
                                + take) as nat
                        }
                    }
                },
                Err(e) => final(self).cursor() == old(self).cursor() && match e {
                    FsError::Unsupported => old(self).is_dir_handle(),
                    FsError::Other => !old(self).is_dir_handle() && !old(self).valid_in(fs.view()),
                    _ => false,
                },
            },
    {
        let (id, cursor) = match &self.backing {
            Backing::Directory => {
                return Err(FsError::Unsupported);
            },
            Backing::Buffer { id, cursor } => (*id, *cursor),
        };
        if id >= fs.buffers.len() {
            return Err(FsError::Other);
        }
        let buf = &fs.buffers[id];
        let blen = buf.len();
        if cursor > blen {
            proof {
                assert(fs.view().buffers[id as int] =~= buf@);
            }
            return Ok(Vec::new());
        }
        let available = blen - cursor;
        let take = if available < max {
            available
        } else {
            max
        };
        let mut out: Vec<u8> = Vec::new();
        let mut i: usize = 0;
        while i < take
            invariant
                i <= take,
                blen == buf@.len(),
                cursor + take <= blen,
                buf == &fs.buffers[id as int],
                id < fs.buffers@.len(),
                out@ =~= buf@.subrange(cursor as int, cursor as int + i),
            decreases take - i,
        {
            out.push(buf[cursor + i]);
            i = i + 1;
            proof {
                assert(out@ =~= buf@.subrange(cursor as int, cursor as int + i));
            }
        }
        self.backing = Backing::Buffer { id, cursor: cursor + take };
        proof {
            assert(fs.view().buffers[id as int] =~= fs.buffers@[id as int]@);
        }
        Ok(out)
    }

    /// Write `data` at the cursor.
    ///
    /// With the cursor at or past end-of-file the whole input is appended,
    /// zero-filling any gap first. Inside the file the write overwrites in
    /// place up to the current end and stops there: the short-write count is
    /// returned and a caller writes the rest with a further call. Fails
    /// with the unsupported-kind error on a directory handle and with the
    /// other-kind error on a stale handle.
    pub fn write(&mut self, fs: &mut MemoryFileManager, data: &[u8]) -> (r: Result<usize, FsError>)
        requires
            old(fs).wf(),
        ensures
            final(fs).wf(),
            final(fs).view().files == old(fs).view().files,
            final(fs).view().dirs == old(fs).view().dirs,
            final(fs).fsync_state() == old(fs).fsync_state(),
            final(self).is_dir_handle() == old(self).is_dir_handle(),
            final(self).buffer_id() == old(self).buffer_id(),
            final(self).path_key() == old(self).path_key(),
            final(self).path_abs() == old(self).path_abs(),
            match r {
                Ok(n) => {
                    &&& !old(self).is_dir_handle()
                    &&& old(self).valid_in(old(fs).view())
                    &&& {
                        let oldb = old(fs).view().buffers[old(self).buffer_id() as int];
                        let nb = final(fs).view().buffers[old(self).buffer_id() as int];
                        let p = old(self).cursor() as int;
                        &&& final(fs).view().buffers == old(fs).view().buffers.update(
                            old(self).buffer_id() as int,
                            nb,
                        )
                        &&& if p >= oldb.len() {
                            &&& n == data@.len()
                            &&& nb == oldb + Seq::new((p - oldb.len()) as nat, |j: int| 0u8)
                                + data@
                            &&& final(self).cursor() == p + data@.len()
                        } else {
                            let take = vstd::math::min(oldb.len() - p, data@.len() as int);
                            &&& n == take
                            &&& nb == oldb.subrange(0, p) + data@.subrange(0, take)
                                + oldb.subrange(p + take, oldb.len() as int)
                            &&& final(self).cursor() == (p + take) as nat
                        }
                    }
                },
                Err(e) => final(fs).view() == old(fs).view() && final(self).cursor() == old(
                    self,
                ).cursor() && match e {
                    FsError::Unsupported => old(self).is_dir_handle(),
                    FsError::Other => !old(self).is_dir_handle() && !old(self).valid_in(
                        old(fs).view(),
                    ),
                    _ => false,
                },
            },
    {
        let (id, cursor) = match &self.backing {
            Backing::Directory => {
                return Err(FsError::Unsupported);
            },
            Backing::Buffer { id, cursor } => (*id, *cursor),
        };
        if id >= fs.buffers.len() {
            return Err(FsError::Other);
        }
        let ghost pre = fs.view();
        let length = fs.buffers[id].len();
        let written: usize;
        let new_cursor: usize;
        if cursor >= length {
            // At or past the end: zero-fill the gap, then append all of the
            // input.
            let mut nb = clone_bytes(&fs.buffers[id]);
            while nb.len() < cursor
                invariant
                    nb@.len() <= cursor,
                    id < fs.buffers@.len(),
                    nb@ =~= fs.buffers[id as int]@ + Seq::new(
                        (nb@.len() - fs.buffers[id as int]@.len()) as nat,
                        |j: int| 0u8,
                    ),
                    fs == old(fs),
                decreases cursor - nb@.len(),
            {
                nb.push(0);
                proof {
                    assert(nb@ =~= fs.buffers[id as int]@ + Seq::new(
                        (nb@.len() - fs.buffers[id as int]@.len()) as nat,
                        |j: int| 0u8,
                    ));
                }
            }
            let mut i: usize = 0;
            while i < data.len()
                invariant
                    i <= data@.len(),
                    id < fs.buffers@.len(),
                    nb@ =~= fs.buffers[id as int]@ + Seq::new(
                        (cursor - fs.buffers[id as int]@.len()) as nat,
                        |j: int| 0u8,
                    ) + data@.subrange(0, i as int),
                    cursor >= fs.buffers[id as int]@.len(),
                    nb@.len() == cursor + i,
                    fs == old(fs),
                decreases data@.len() - i,
            {
                nb.push(data[i]);
                i = i + 1;
                proof {
                    assert(nb@ =~= fs.buffers[id as int]@ + Seq::new(
                        (cursor - fs.buffers[id as int]@.len()) as nat,
                        |j: int| 0u8,
                    ) + data@.subrange(0, i as int));
                }
            }
            proof {
                assert(data@.subrange(0, data@.len() as int) =~= data@);
            }
            new_cursor = nb.len();
            written = data.len();
            fs.buffers[id] = nb;
        } else {
            // Inside the file: overwrite in place up to the current end.
            let room = length - cursor;
            let take = if room < data.len() {
                room
            } else {
                data.len()
            };
            let oldb = &fs.buffers[id];
            let mut nb: Vec<u8> = Vec::new();
            let mut i: usize = 0;
            while i < length
                invariant
                    i <= length,
                    length == oldb@.len(),
                    cursor + take <= length,
                    take <= data@.len(),
                    oldb == &fs.buffers[id as int],
                    id < fs.buffers@.len(),
                    nb@.len() == i,
                    forall|j: int|
                        0 <= j < i ==> nb@[j] == (if cursor <= j < cursor + take {
                            data@[j - cursor]
                        } else {
                            oldb@[j]
                        }),
                decreases length - i,
            {
                if i >= cursor && i < cursor + take {
                    nb.push(data[i - cursor]);
                } else {
                    nb.push(oldb[i]);
                }
                i = i + 1;
            }
            proof {
                assert(nb@ =~= pre.buffers[id as int].subrange(0, cursor as int) + data@.subrange(
                    0,
                    take as int,
                ) + pre.buffers[id as int].subrange(
                    cursor as int + take as int,
                    pre.buffers[id as int].len() as int,
                ));
            }
            new_cursor = cursor + take;
            written = take;
            fs.buffers[id] = nb;
        }
        self.backing = Backing::Buffer { id, cursor: new_cursor };
        proof {
            assert(fs.buffers@ == old(fs).buffers@.update(id as int, fs.buffers@[id as int]));
            assert(fs.view().buffers[id as int] =~= fs.buffers@[id as int]@);
            assert(pre.buffers[id as int] =~= old(fs).buffers@[id as int]@);
            assert(fs.view().buffers =~= pre.buffers.update(
                id as int,
                fs.view().buffers[id as int],
            ));
            assert(fs.view().files == pre.files);
            assert(fs.view().dirs =~= pre.dirs);
            assert(fs.view().buffers.len() == pre.buffers.len());
            assert(fs_inv(fs.view()));
        }
        Ok(written)
    }

    /// Move the cursor relative to the start, the end, or the current
    /// position, returning the new position. The most-negative relative
    /// offset clamps to the start of the file.
    ///
    /// Fails with the unsupported-kind error on a directory handle or a
    /// seek before the start of the file, and with the other-kind error on
    /// a stale handle or a position that does not fit the platform.
    pub fn seek(&mut self, fs: &MemoryFileManager, pos: SeekFrom) -> (r: Result<u64, FsError>)
        ensures
            final(self).is_dir_handle() == old(self).is_dir_handle(),
            final(self).buffer_id() == old(self).buffer_id(),
            final(self).path_key() == old(self).path_key(),
            final(self).path_abs() == old(self).path_abs(),
            ({
                let target = Self::seek_target(
                    pos,
                    old(self).cursor() as int,
                    fs.view().buffers[old(self).buffer_id() as int].len() as int,
                );
                match r {
                    Ok(n) => {
                        &&& !old(self).is_dir_handle()
                        &&& old(self).valid_in(fs.view())
                        &&& 0 <= target <= usize::MAX
                        &&& n == target
                        &&& final(self).cursor() == target
                    },
                    Err(e) => final(self).cursor() == old(self).cursor() && match e {
                        FsError::Unsupported => old(self).is_dir_handle() || (old(self).valid_in(
                            fs.view(),
                        ) && target < 0),
                        FsError::Other => !old(self).is_dir_handle() && (!old(self).valid_in(
                            fs.view(),
                        ) || target > usize::MAX),
                        _ => false,
                    },
                }
            }),
    {
        let (id, cursor) = match &self.backing {
            Backing::Directory => {
                return Err(FsError::Unsupported);
            },
            Backing::Buffer { id, cursor } => (*id, *cursor),
        };
        if id >= fs.buffers.len() {
            return Err(FsError::Other);
        }
        let length = fs.buffers[id].len() as u64;
        let new_position: u64 = match pos {
            SeekFrom::Start(offset) => offset,
            SeekFrom::End(from_end) => {
                if from_end > 0 {
                    if (from_end as u64) > u64::MAX - length {
                        return Err(FsError::Other);
                    }
                    length + from_end as u64
                } else if from_end == i64::MIN {
                    0
                } else {
                    let back = (-from_end) as u64;
                    if back > length {
                        return Err(FsError::Unsupported);
                    }
                    length - back
                }
            },
            SeekFrom::Current(offset) => {
                let current = cursor as u64;
                if offset > 0 {
                    if (offset as u64) > u64::MAX - current {
                        return Err(FsError::Other);
                    }
                    current + offset as u64
                } else if offset == i64::MIN {
                    0
                } else {
                    let back = (-offset) as u64;
                    if back > current {
                        return Err(FsError::Unsupported);
                    }
                    current - back
                }
            },
        };
        if new_position > usize::MAX as u64 {
            return Err(FsError::Other);
        }
        self.backing = Backing::Buffer { id, cursor: new_position as usize };
        Ok(new_position)
    }

    /// Duplicate the handle: the duplicate aliases the same entry but owns
    /// a fresh cursor at the start of the file.
    pub fn try_clone(&self) -> (r: Result<Self, FsError>)
        ensures
            match r {
                Ok(f) => f.is_dir_handle() == self.is_dir_handle() && f.path_key()
                    == self.path_key() && f.path_abs() == self.path_abs() && (!f.is_dir_handle()
                    ==> f.buffer_id() == self.buffer_id() && f.cursor() == 0),
                Err(_) => false,
            },
    {
        let path = self.path.clone();
        match &self.backing {
            Backing::Directory => Ok(MemoryFile { path, backing: Backing::Directory }),
            Backing::Buffer { id, cursor: _ } => Ok(
                MemoryFile { path, backing: Backing::Buffer { id: *id, cursor: 0 } },
            ),
        }
    }
}

/// Require an absolute path, as the in-memory backing does everywhere.
pub fn check_path(path: &PathId) -> (r: Result<(), FsError>)
    ensures
        match r {
            Ok(()) => path.absolute,
            Err(e) => !path.absolute && e == FsError::Unsupported,
        },
{
    if path.is_absolute() {
        Ok(())
    } else {
        Err(FsError::Unsupported)
    }
}

/// The in-memory file manager: a virtual filesystem rooted at `/`, plus the
/// durability subsystem.
pub struct MemoryFileManager {
    dirs: AssocMap<Vec<PathId>>,
    files: AssocMap<FileNode>,
    buffers: Vec<Vec<u8>>,
    fsyncs: FSyncManager,
}

impl MemoryFileManager {
    /// The manager's abstract filesystem state.
    pub closed spec fn view(&self) -> FsView {
        FsView {
            dirs: dir_sets(self.dirs.to_map()),
            files: self.files.to_map(),
            buffers: self.buffers.deep_view(),
        }
    }

    /// The durability subsystem's lifecycle state.
    pub closed spec fn fsync_state(&self) -> ThreadState {
        self.fsyncs.thread_state()
    }

    /// Well-formedness: the tables are proper maps and the coordination
    /// invariant holds of the abstract state.
    pub closed spec fn wf(&self) -> bool {
        &&& self.dirs.wf()
        &&& self.files.wf()
        &&& fs_inv(self.view())
        &&& forall|k: Seq<Seq<u8>>| #[trigger]
            self.dirs.to_map().contains_key(k) ==> child_list_wf(self.dirs.to_map()[k]@)
    }

    /// A manager whose filesystem holds only the root directory, with a
    /// durability manager capped at `maximum_threads` workers.
    pub fn new(maximum_threads: usize) -> (r: Self)
        ensures
            r.wf(),
            r.view().files =~= Map::empty().insert(root_key(), FileNode::Directory),
            r.view().dirs =~= Map::empty().insert(root_key(), Set::empty()),
            r.view().buffers == Seq::<Seq<u8>>::empty(),
            r.fsync_state() == (ThreadState::Uninitialized { maximum_threads }),
    {
        let root = PathId { absolute: true, segments: Vec::new() };
        proof {
            assert(root.key() =~= root_key());
        }
        let mut dirs: AssocMap<Vec<PathId>> = AssocMap::new();
        let mut files: AssocMap<FileNode> = AssocMap::new();
        let empty_children: Vec<PathId> = Vec::new();
        dirs.insert(root.clone(), empty_children);
        files.insert(root, FileNode::Directory);
        let r = MemoryFileManager { dirs, files, buffers: Vec::new(), fsyncs: FSyncManager::new(
            maximum_threads,
        ) };
        proof {
            assert(r.view().files =~= Map::empty().insert(root_key(), FileNode::Directory));
            assert(child_set(Seq::<PathId>::empty()) =~= Set::<Seq<Seq<u8>>>::empty());
            assert(r.view().dirs =~= Map::empty().insert(root_key(), Set::empty()));
            assert(r.view().buffers =~= Seq::<Seq<u8>>::empty());
            assert(fs_inv(r.view()));
        }
        r
    }

    /// Whether an entry exists at `path`. Best-effort and non-failing: a
    /// relative path simply reports `false`.
    pub fn exists_at(&self, path: &PathId) -> (r: bool)
        requires
            self.wf(),
        ensures
            r == (path.absolute && self.view().files.contains_key(path.key())),
    {
        self.files.contains(path)
    }

    /// Create a fresh entry at `path` — an empty directory or an empty file
    /// — and link it into its parent's child set. Returns the buffer store
    /// index of the new file (meaningful for files only).
    fn link_new_node(&mut self, path: PathId, directory: bool) -> (id: usize)
        requires
            old(self).wf(),
            path.absolute,
            path.key().len() > 0,
            !old(self).view().files.contains_key(path.key()),
            old(self).view().dirs.contains_key(path.key().drop_last()),
        ensures
            final(self).wf(),
            final(self).fsync_state() == old(self).fsync_state(),
            final(self).view().files == old(self).view().files.insert(
                path.key(),
                if directory {
                    FileNode::Directory
                } else {
                    (FileNode::Buffer { id })
                },
            ),
            final(self).view().buffers == if directory {
                old(self).view().buffers
            } else {
                old(self).view().buffers.push(Seq::<u8>::empty())
            },
            !directory ==> id == old(self).view().buffers.len(),
            final(self).view().dirs == if directory {
                old(self).view().dirs.insert(
                    path.key().drop_last(),
                    old(self).view().dirs[path.key().drop_last()].insert(path.key()),
                ).insert(path.key(), Set::<Seq<Seq<u8>>>::empty())
            } else {
                old(self).view().dirs.insert(
                    path.key().drop_last(),
                    old(self).view().dirs[path.key().drop_last()].insert(path.key()),
                )
            },
    {
        let ghost pre = self.view();
        let ghost k = path.key();
        let ghost pk = path.key().drop_last();
        let parent = match path.parent() {
            Some(p) => p,
            None => {
                proof {
                    assert(false);
                }
                unreached()
            },
        };
        let id = self.buffers.len();
        let ghost node = if directory {
            FileNode::Directory
        } else {
            (FileNode::Buffer { id })
        };
        if directory {
            let empty_children: Vec<PathId> = Vec::new();
            self.dirs.insert(path.clone(), empty_children);
        } else {
            self.buffers.push(Vec::new());
        }
        if directory {
            self.files.insert(path.clone(), FileNode::Directory);
        } else {
            self.files.insert(path.clone(), FileNode::Buffer { id });
        }
        let children_opt = self.dirs.remove(&parent);
        match children_opt {
            Some(mut list) => {
                let ghost old_list = list@;
                list.push(path);
                self.dirs.insert(parent, list);
                proof {
                    let post = self.view();
                    lemma_child_set_push(old_list, path);
                    lemma_child_set_empty();
                    assert(post.files == pre.files.insert(k, node));
                    // The buffer store after an append.
                    if directory {
                        assert(post.buffers =~= pre.buffers);
                    } else {
                        assert(post.buffers =~~= pre.buffers.push(Seq::<u8>::empty()));
                    }
                    // The directory table after the relink.
                    let target_dirs = if directory {
                        pre.dirs.insert(pk, pre.dirs[pk].insert(k)).insert(
                            k,
                            Set::<Seq<Seq<u8>>>::empty(),
                        )
                    } else {
                        pre.dirs.insert(pk, pre.dirs[pk].insert(k))
                    };
                    assert(post.dirs =~= target_dirs);
                    // The coordination invariant is preserved.
                    assert(k != root_key());
                    assert forall|q: Seq<Seq<u8>>| #[trigger]
                        post.dirs.contains_key(q) <==> (post.files.contains_key(q) && post.files[q]
                            is Directory) by {
                        if q != k && q != pk {
                            assert(post.dirs.contains_key(q) == pre.dirs.contains_key(q));
                        }
                    }
                    assert forall|q: Seq<Seq<u8>>| #[trigger]
                        post.files.contains_key(q) && q.len() > 0 implies post.dirs.contains_key(
                        q.drop_last(),
                    ) && post.dirs[q.drop_last()].contains(q) by {
                        if q == k {
                            assert(post.dirs.contains_key(pk));
                            assert(post.dirs[pk].contains(k));
                        } else {
                            assert(pre.files.contains_key(q));
                            assert(pre.dirs.contains_key(q.drop_last()));
                            assert(pre.dirs[q.drop_last()].contains(q));
                            if q.drop_last() == pk {
                                assert(post.dirs[pk].contains(q));
                            }
                        }
                    }
                    assert forall|d: Seq<Seq<u8>>, c: Seq<Seq<u8>>|
                        post.dirs.contains_key(d) && #[trigger] post.dirs[d].contains(c) implies
                        post.files.contains_key(c) && c.len() > 0 && c.drop_last() == d by {
                        if d == pk {
                            if c != k {
                                assert(pre.dirs[pk].contains(c));
                            }
                        } else if directory && d == k {
                            assert(post.dirs[k] =~= Set::<Seq<Seq<u8>>>::empty());
                        } else {
                            assert(pre.dirs.contains_key(d));
                            assert(pre.dirs[d].contains(c));
                        }
                    }
                    assert forall|q: Seq<Seq<u8>>| #[trigger]
                        post.files.contains_key(q) && post.files[q] is Buffer implies (post.files[
                        q
                    ]->id as int) < post.buffers.len() by {
                        if q != k {
                            assert(pre.files.contains_key(q));
                        }
                    }
                    // Child lists stay well-formed.
                    assert forall|q: Seq<Seq<u8>>| #[trigger]
                        self.dirs.to_map().contains_key(q) implies child_list_wf(
                        self.dirs.to_map()[q]@,
                    ) by {
                        if q == pk {
                            assert(self.dirs.to_map()[pk]@ == old_list.push(path));
                            assert forall|a: int, b: int|
                                0 <= a < b < old_list.push(path).len() implies old_list.push(
                                path,
                            )[a].key() != old_list.push(path)[b].key() by {
                                if b == old_list.len() as int {
                                    assert(child_set(old_list).contains(old_list[a].key()));
                                    assert(pre.dirs[pk].contains(old_list[a].key()));
                                    assert(pre.files.contains_key(old_list[a].key()));
                                }
                            }
                        } else if directory && q == k {
                        } else {
                            assert(old(self).dirs.to_map().contains_key(q));
                            assert(self.dirs.to_map()[q] == old(self).dirs.to_map()[q]);
                        }
                    }
                }
            },
            None => {
                proof {
                    assert(false);
                }
            },
        }
        id
    }

    /// Open the entry at `path`.
    ///
    /// An existing entry is opened as it stands (directories included); a
    /// missing entry is created as an empty file when `create` is set and
    /// the parent directory exists; otherwise the call fails, with the
    /// unsupported-kind error for a relative path and the not-found-kind
    /// error for a missing entry or parent.
    pub fn open(&mut self, path: &PathId, options: OpenOptions) -> (r: Result<MemoryFile, FsError>)
        requires
            old(self).wf(),
        ensures
            final(self).wf(),
            final(self).fsync_state() == old(self).fsync_state(),
            match r {
                Ok(f) => {
                    &&& path.absolute
                    &&& f.path_key() == path.key()
                    &&& f.path_abs()
                    &&& if old(self).view().files.contains_key(path.key()) {
                        &&& *final(self) == *old(self)
                        &&& f.is_dir_handle() == (old(self).view().files[path.key()] is Directory)
                        &&& (old(self).view().files[path.key()] matches FileNode::Buffer { id }
                            ==> !f.is_dir_handle() && f.buffer_id() == id && f.cursor() == 0)
                    } else {
                        &&& options.create
                        &&& path.key().len() > 0
                        &&& old(self).view().dirs.contains_key(path.key().drop_last())
                        &&& !f.is_dir_handle()
                        &&& f.cursor() == 0
                        &&& f.buffer_id() == old(self).view().buffers.len()
                        &&& final(self).view().files == old(self).view().files.insert(
                            path.key(),
                            (FileNode::Buffer { id: f.buffer_id() }),
                        )
                        &&& final(self).view().buffers == old(self).view().buffers.push(
                            Seq::<u8>::empty(),
                        )
                        &&& final(self).view().dirs == old(self).view().dirs.insert(
                            path.key().drop_last(),
                            old(self).view().dirs[path.key().drop_last()].insert(path.key()),
                        )
                    }
                },
                Err(e) => {
                    &&& *final(self) == *old(self)
                    &&& if !path.absolute {
                        e == FsError::Unsupported
                    } else {
                        e == FsError::NotFound && !old(self).view().files.contains_key(path.key())
                            && (!options.create || (path.key().len() > 0 && !old(
                            self,
                        ).view().dirs.contains_key(path.key().drop_last())))
                    }
                },
            },
    {
        if let Err(e) = check_path(path) {
            return Err(e);
        }
        let existing: Option<FileNode> = match self.files.get(path) {
            Some(node) => Some(*node),
            None => None,
        };
        match existing {
            Some(FileNode::Directory) => Ok(MemoryFile::new_directory(path.clone())),
            Some(FileNode::Buffer { id }) => Ok(MemoryFile::new(path.clone(), id)),
            None => {
                if options.create {
                    proof {
                        if path.key().len() == 0 {
                            assert(path.key() =~= root_key());
                        }
                    }
                    let parent = match path.parent() {
                        Some(p) => p,
                        None => {
                            proof {
                                assert(false);
                            }
                            unreached()
                        },
                    };
                    if self.dirs.contains(&parent) {
                        let id = self.link_new_node(path.clone(), false);
                        Ok(MemoryFile::new(path.clone(), id))
                    } else {
                        Err(FsError::NotFound)
                    }
                } else {
                    Err(FsError::NotFound)
                }
            },
        }
    }

    /// Create the directory at `path` together with any missing ancestors.
    ///
    /// Succeeds when `path` already exists as a directory; fails with the
    /// unsupported-kind error when `path` itself exists as a file, and with
    /// the already-exists-kind error when an ancestor exists as a file. All
    /// created entries are empty directories.
    #[verifier::rlimit(100)]
    pub fn create_dir_all(&mut self, path: &PathId) -> (r: Result<(), FsError>)
        requires
            old(self).wf(),
        ensures
            final(self).wf(),
            final(self).fsync_state() == old(self).fsync_state(),
            final(self).view().buffers == old(self).view().buffers,
            match r {
                Ok(()) => {
                    &&& path.absolute
                    &&& (old(self).view().files.contains_key(path.key()) ==> old(
                        self,
                    ).view().files[path.key()] is Directory && *final(self) == *old(self))
                    &&& (!old(self).view().files.contains_key(path.key()) ==> {
                        &&& forall|q: Seq<Seq<u8>>| #[trigger]
                            final(self).view().files.contains_key(q) <==> (old(
                                self,
                            ).view().files.contains_key(q) || exists|i: int|
                                0 <= i <= path.key().len() && q == path.key().subrange(0, i))
                        &&& forall|q: Seq<Seq<u8>>| #[trigger]
                            old(self).view().files.contains_key(q) ==> final(self).view().files[q]
                                == old(self).view().files[q]
                        &&& forall|i: int|
                            0 <= i <= path.key().len() ==> final(self).view().files.contains_key(
                                #[trigger] path.key().subrange(0, i),
                            ) && final(self).view().files[path.key().subrange(0, i)] is Directory
                    })
                },
                Err(e) => *final(self) == *old(self) && match e {
                    FsError::Unsupported => !path.absolute || (old(
                        self,
                    ).view().files.contains_key(path.key()) && old(self).view().files[path.key()]
                        is Buffer),
                    FsError::AlreadyExists => path.absolute && !old(
                        self,
                    ).view().files.contains_key(path.key()) && exists|i: int|
                        0 <= i < path.key().len() && old(self).view().files.contains_key(
                            #[trigger] path.key().subrange(0, i),
                        ) && old(self).view().files[path.key().subrange(0, i)] is Buffer,
                    _ => false,
                },
            },
    {
        if let Err(e) = check_path(path) {
            return Err(e);
        }
        let existing: Option<FileNode> = match self.files.get(path) {
            Some(node) => Some(*node),
            None => None,
        };
        match existing {
            Some(FileNode::Buffer { .. }) => Err(FsError::Unsupported),
            Some(FileNode::Directory) => Ok(()),
            None => {
                let ghost pre = self.view();
                let n = path.depth();
                proof {
                    if n == 0 {
                        assert(path.key() =~= root_key());
                    }
                }
                // Find the least prefix length at which the path stops
                // existing; everything below it exists.
                let mut m: usize = 1;
                let mut scanning = true;
                while scanning
                    invariant
                        self.wf(),
                        *self == *old(self),
                        pre == self.view(),
                        path.absolute,
                        n == path.key().len(),
                        n > 0,
                        1 <= m <= n,
                        !pre.files.contains_key(path.key()),
                        forall|j: int|
                            1 <= j < m ==> pre.files.contains_key(
                                #[trigger] path.key().subrange(0, j),
                            ),
                        !scanning ==> !pre.files.contains_key(path.key().subrange(0, m as int)),
                    decreases n - m + (if scanning { 1int } else { 0int }),
                {
                    if m == n {
                        scanning = false;
                        proof {
                            assert(path.key().subrange(0, n as int) =~= path.key());
                        }
                    } else {
                        let p = path.truncated(m);
                        if self.files.contains(&p) {
                            m = m + 1;
                        } else {
                            scanning = false;
                        }
                    }
                }
                // The nearest existing ancestor decides: a file blocks the
                // creation, a directory anchors it.
                let boundary = path.truncated(m - 1);
                proof {
                    if m == 1 {
                        assert(boundary.key() =~= root_key());
                    }
                    assert(pre.files.contains_key(boundary.key()));
                }
                let boundary_node: Option<FileNode> = match self.files.get(&boundary) {
                    Some(node) => Some(*node),
                    None => None,
                };
                match boundary_node {
                    None => {
                        proof {
                            assert(false);
                        }
                        unreached()
                    },
                    Some(FileNode::Buffer { .. }) => {
                        proof {
                            assert(m - 1 < path.key().len());
                        }
                        Err(FsError::AlreadyExists)
                    },
                    Some(FileNode::Directory) => {
                        // Create each missing prefix as an empty directory,
                        // each linked under the one before it. `done` is the
                        // length of the longest prefix settled so far.
                        let mut done: usize = m - 1;
                        while done < n
                            invariant
                                self.wf(),
                                self.fsync_state() == old(self).fsync_state(),
                                self.view().buffers == pre.buffers,
                                n == path.key().len(),
                                1 <= m <= done + 1 <= n + 1,
                                path.absolute,
                                pre == old(self).view(),
                                !pre.files.contains_key(path.key()),
                                !pre.files.contains_key(path.key().subrange(0, m as int)),
                                fs_inv(pre),
                                pre.files.contains_key(path.key().subrange(0, m - 1)),
                                pre.files[path.key().subrange(0, m - 1)] is Directory,
                                forall|q: Seq<Seq<u8>>| #[trigger]
                                    self.view().files.contains_key(q) <==> (pre.files.contains_key(
                                        q,
                                    ) || exists|j: int|
                                        m <= j <= done && q == path.key().subrange(0, j)),
                                forall|q: Seq<Seq<u8>>| #[trigger]
                                    pre.files.contains_key(q) ==> self.view().files[q]
                                        == pre.files[q],
                                forall|j: int|
                                    m <= j <= done ==> self.view().files.contains_key(
                                        #[trigger] path.key().subrange(0, j),
                                    ) && self.view().files[path.key().subrange(0, j)] is Directory,
                                self.view().files.contains_key(path.key().subrange(0, done as int)),
                                self.view().files[path.key().subrange(0, done as int)]
                                    is Directory,
                            decreases n - done,
                        {
                            let ghost before = self.view();
                            let p = path.truncated(done + 1);
                            proof {
                                assert(p.key().len() == done + 1);
                                assert(p.key().drop_last() =~= path.key().subrange(
                                    0,
                                    done as int,
                                ));
                                // The next prefix is still missing: it was
                                // missing in the original state because the
                                // tree is prefix-closed, and the loop has
                                // only created shorter prefixes.
                                if pre.files.contains_key(p.key()) {
                                    if done + 1 > m {
                                        lemma_prefix_closed(pre, p.key(), m as int);
                                        assert(p.key().subrange(0, m as int) =~= path.key().subrange(
                                            0,
                                            m as int,
                                        ));
                                    }
                                    assert(false);
                                }
                                assert forall|j: int| m <= j <= done implies path.key().subrange(
                                    0,
                                    j,
                                ) != p.key() by {
                                    assert(path.key().subrange(0, j).len() == j);
                                }
                                assert(!before.files.contains_key(p.key()));
                                assert(before.dirs.contains_key(p.key().drop_last()));
                            }
                            self.link_new_node(p, true);
                            done = done + 1;
                            proof {
                                assert forall|q: Seq<Seq<u8>>| #[trigger]
                                    self.view().files.contains_key(q) <==> (pre.files.contains_key(
                                        q,
                                    ) || exists|j: int|
                                        m <= j <= done && q == path.key().subrange(0, j)) by {
                                    if q == path.key().subrange(0, done as int) {
                                        assert(self.view().files.contains_key(q));
                                    }
                                }
                            }
                        }
                        proof {
                            assert(path.key().subrange(0, n as int) =~= path.key());
                            assert forall|i: int|
                                0 <= i <= path.key().len() implies self.view().files.contains_key(
                                #[trigger] path.key().subrange(0, i),
                            ) && self.view().files[path.key().subrange(0, i)] is Directory by {
                                if i < m {
                                    if i == 0 {
                                        assert(path.key().subrange(0, 0) =~= root_key());
                                    } else if i == m - 1 {
                                    } else {
                                        lemma_prefix_closed(
                                            pre,
                                            path.key().subrange(0, m - 1),
                                            i,
                                        );
                                        assert(path.key().subrange(0, m - 1).subrange(0, i)
                                            =~= path.key().subrange(0, i));
                                    }
                                }
                            }
                        }
                        Ok(())
                    },
                }
            },
        }
    }

    /// Remove the single non-directory entry at `path`.
    ///
    /// Fails with the not-found-kind error when the entry is absent, and
    /// with the unsupported-kind error for a relative path, for the root,
    /// or for a directory. Open handles onto the file keep aliasing its
    /// bytes.
    pub fn remove_file(&mut self, path: &PathId) -> (r: Result<(), FsError>)
        requires
            old(self).wf(),
        ensures
            final(self).wf(),
            final(self).fsync_state() == old(self).fsync_state(),
            final(self).view().buffers == old(self).view().buffers,
            match r {
                Ok(()) => {
                    &&& path.absolute
                    &&& path.key().len() > 0
                    &&& old(self).view().files.contains_key(path.key())
                    &&& old(self).view().files[path.key()] is Buffer
                    &&& final(self).view().files == old(self).view().files.remove(path.key())
                },
                Err(e) => *final(self) == *old(self) && match e {
                    FsError::Unsupported => !path.absolute || path.key().len() == 0 || (old(
                        self,
                    ).view().files.contains_key(path.key()) && old(self).view().files[path.key()]
                        is Directory),
                    FsError::NotFound => path.absolute && path.key().len() > 0 && !old(
                        self,
                    ).view().files.contains_key(path.key()),
                    _ => false,
                },
            },
    {
        if let Err(e) = check_path(path) {
            return Err(e);
        }
        if path.depth() == 0 {
            // A request to remove the root, which is a directory.
            return Err(FsError::Unsupported);
        }
        let existing: Option<FileNode> = match self.files.get(path) {
            Some(node) => Some(*node),
            None => None,
        };
        match existing {
            None => Err(FsError::NotFound),
            Some(FileNode::Directory) => Err(FsError::Unsupported),
            Some(FileNode::Buffer { .. }) => {
                let ghost pre = self.view();
                let ghost k = path.key();
                let ghost pk = path.key().drop_last();
                let parent = match path.parent() {
                    Some(p) => p,
                    None => {
                        proof {
                            assert(false);
                        }
                        unreached()
                    },
                };
                self.files.remove(path);
                let children_opt = self.dirs.remove(&parent);
                match children_opt {
                    Some(mut list) => {
                        let ghost old_list = list@;
                        unlink_child(&mut list, path);
                        self.dirs.insert(parent, list);
                        proof {
                            let post = self.view();
                            assert(post.files == pre.files.remove(k));
                            assert(post.buffers =~= pre.buffers);
                            assert(post.dirs =~= pre.dirs.insert(pk, pre.dirs[pk].remove(k)));
                            assert forall|q: Seq<Seq<u8>>| #[trigger]
                                post.dirs.contains_key(q) <==> (post.files.contains_key(q)
                                    && post.files[q] is Directory) by {
                                if q != k && q != pk {
                                    assert(post.dirs.contains_key(q) == pre.dirs.contains_key(q));
                                }
                            }
                            assert forall|q: Seq<Seq<u8>>| #[trigger]
                                post.files.contains_key(q) && q.len() > 0 implies
                                post.dirs.contains_key(q.drop_last()) && post.dirs[
                                q.drop_last()].contains(q) by {
                                assert(pre.files.contains_key(q));
                            }
                            assert forall|d: Seq<Seq<u8>>, c: Seq<Seq<u8>>|
                                post.dirs.contains_key(d) && #[trigger] post.dirs[d].contains(
                                c,
                            ) implies post.files.contains_key(c) && c.len() > 0 && c.drop_last()
                                == d by {
                                if d == pk {
                                    assert(pre.dirs[pk].contains(c));
                                    assert(c != k);
                                } else {
                                    assert(pre.dirs[d].contains(c));
                                    assert(c.drop_last() == d);
                                    assert(c != k);
                                }
                            }
                            assert forall|q: Seq<Seq<u8>>| #[trigger]
                                self.dirs.to_map().contains_key(q) implies child_list_wf(
                                self.dirs.to_map()[q]@,
                            ) by {
                                if q != pk {
                                    assert(self.dirs.to_map()[q] == old(self).dirs.to_map()[q]);
                                }
                            }
                        }
                        Ok(())
                    },
                    None => {
                        proof {
                            assert(false);
                        }
                        unreached()
                    },
                }
            },
        }
    }

    /// Atomically relink the file at `from` to the name `to`.
    ///
    /// The file's bytes and length are preserved: open handles keep aliasing
    /// the same buffer. An existing file at `to` is replaced. Fails with the
    /// not-found-kind error when `from` is missing or the parent directory
    /// of a fresh `to` does not exist, and with the unsupported-kind error
    /// for relative paths, the root on either side, a directory source, or
    /// a directory destination.
    ///
    /// Directory renames are refused deliberately: a directory's descendants
    /// are keyed by their full canonical paths, so moving one would re-key
    /// the whole subtree, which no coherent single-entry relink can express;
    /// the backing keeps the tree invariant instead.
    pub fn rename(&mut self, from: &PathId, to: PathId) -> (r: Result<(), FsError>)
        requires
            old(self).wf(),
        ensures
            final(self).wf(),
            final(self).fsync_state() == old(self).fsync_state(),
            final(self).view().buffers == old(self).view().buffers,
            match r {
                Ok(()) => {
                    &&& from.absolute && to.absolute
                    &&& from.key().len() > 0 && to.key().len() > 0
                    &&& old(self).view().files.contains_key(from.key())
                    &&& old(self).view().files[from.key()] is Buffer
                    &&& (old(self).view().files.contains_key(to.key()) ==> old(self).view().files[
                        to.key()
                    ] is Buffer)
                    &&& (!old(self).view().files.contains_key(to.key()) ==> old(
                        self,
                    ).view().dirs.contains_key(to.key().drop_last()))
                    &&& final(self).view().files == old(self).view().files.remove(
                        from.key(),
                    ).insert(to.key(), old(self).view().files[from.key()])
                },
                Err(e) => *final(self) == *old(self) && match e {
                    FsError::Unsupported => !from.absolute || !to.absolute || from.key().len() == 0
                        || to.key().len() == 0 || (old(self).view().files.contains_key(from.key())
                        && old(self).view().files[from.key()] is Directory) || (old(
                        self,
                    ).view().files.contains_key(from.key()) && old(self).view().files[from.key()]
                        is Buffer && old(self).view().files.contains_key(to.key()) && old(
                        self,
                    ).view().files[to.key()] is Directory),
                    FsError::NotFound => from.absolute && to.absolute && from.key().len() > 0
                        && to.key().len() > 0 && (!old(self).view().files.contains_key(from.key())
                        || (old(self).view().files[from.key()] is Buffer && !old(
                        self,
                    ).view().files.contains_key(to.key()) && !old(self).view().dirs.contains_key(
                        to.key().drop_last(),
                    ))),
                    _ => false,
                },
            },
    {
        if let Err(e) = check_path(from) {
            return Err(e);
        }
        if let Err(e) = check_path(&to) {
            return Err(e);
        }
        if from.depth() == 0 || to.depth() == 0 {
            return Err(FsError::Unsupported);
        }
        let source: Option<FileNode> = match self.files.get(from) {
            Some(node) => Some(*node),
            None => None,
        };
        let node = match source {
            None => {
                return Err(FsError::NotFound);
            },
            Some(FileNode::Directory) => {
                return Err(FsError::Unsupported);
            },
            Some(FileNode::Buffer { id }) => FileNode::Buffer { id },
        };
        let destination: Option<FileNode> = match self.files.get(&to) {
            Some(existing) => Some(*existing),
            None => None,
        };
        let to_exists = match destination {
            Some(FileNode::Directory) => {
                return Err(FsError::Unsupported);
            },
            Some(FileNode::Buffer { .. }) => true,
            None => {
                let to_parent = match to.parent() {
                    Some(p) => p,
                    None => {
                        proof {
                            assert(false);
                        }
                        unreached()
                    },
                };
                if !self.dirs.contains(&to_parent) {
                    return Err(FsError::NotFound);
                }
                false
            },
        };
        if from.starts_with(&to) && to.starts_with(from) {
            // Renaming a file onto itself leaves the tree as it is.
            proof {
                assert(from.key().subrange(0, from.key().len() as int) =~= from.key());
                assert(to.key().subrange(0, to.key().len() as int) =~= to.key());
                assert(from.key() == to.key());
                assert(old(self).view().files.remove(from.key()).insert(
                    to.key(),
                    old(self).view().files[from.key()],
                ) =~= old(self).view().files);
            }
            return Ok(());
        }
        proof {
            if from.key() == to.key() {
                assert(from.key().subrange(0, from.key().len() as int) =~= from.key());
                assert(to.key().subrange(0, to.key().len() as int) =~= to.key());
                assert(false);
            }
        }
        let ghost pre = self.view();
        let ghost fk = from.key();
        let ghost tk = to.key();
        let ghost fpk = from.key().drop_last();
        let ghost tpk = to.key().drop_last();
        let from_parent = match from.parent() {
            Some(p) => p,
            None => {
                proof {
                    assert(false);
                }
                unreached()
            },
        };
        self.files.remove(from);
        let children_opt = self.dirs.remove(&from_parent);
        match children_opt {
            Some(mut list) => {
                unlink_child(&mut list, from);
                self.dirs.insert(from_parent, list);
            },
            None => {
                proof {
                    assert(false);
                }
                unreached()
            },
        }
        let ghost mid_dirs = self.view().dirs;
        proof {
            assert(mid_dirs =~= pre.dirs.insert(fpk, pre.dirs[fpk].remove(fk)));
        }
        self.files.insert(to.clone(), node);
        if !to_exists {
            let to_parent = match to.parent() {
                Some(p) => p,
                None => {
                    proof {
                        assert(false);
                    }
                    unreached()
                },
            };
            let children_opt = self.dirs.remove(&to_parent);
            match children_opt {
                Some(mut list) => {
                    let ghost mid_list = list@;
                    proof {
                        if child_set(mid_list).contains(tk) {
                            let j = choose|j: int|
                                0 <= j < mid_list.len() && (#[trigger] mid_list[j]).key() == tk;
                            assert(mid_dirs[tpk].contains(tk));
                            assert(false);
                        }
                    }
                    list.push(to);
                    self.dirs.insert(to_parent, list);
                    proof {
                        lemma_child_set_push(mid_list, to);
                        assert forall|a: int, b: int|
                            0 <= a < b < mid_list.push(to).len() implies mid_list.push(
                            to,
                        )[a].key() != mid_list.push(to)[b].key() by {
                            if b == mid_list.len() as int {
                                assert(child_set(mid_list).contains(mid_list[a].key()));
                            }
                        }
                    }
                },
                None => {
                    proof {
                        if tpk == fpk {
                            assert(mid_dirs.contains_key(tpk));
                        }
                        assert(false);
                    }
                    unreached()
                },
            }
        }
        proof {
            let post = self.view();
            assert(post.files == pre.files.remove(fk).insert(tk, pre.files[fk]));
            assert(post.buffers =~= pre.buffers);
            if to_exists {
                assert(post.dirs =~= mid_dirs);
            } else {
                assert(post.dirs =~= mid_dirs.insert(tpk, mid_dirs[tpk].insert(tk)));
            }
            assert forall|q: Seq<Seq<u8>>| #[trigger]
                post.dirs.contains_key(q) <==> (post.files.contains_key(q) && post.files[q]
                    is Directory) by {
                if q != fk && q != tk {
                    assert(post.dirs.contains_key(q) == pre.dirs.contains_key(q));
                    assert(post.files.contains_key(q) == pre.files.contains_key(q));
                }
            }
            assert forall|q: Seq<Seq<u8>>| #[trigger]
                post.files.contains_key(q) && q.len() > 0 implies post.dirs.contains_key(
                q.drop_last(),
            ) && post.dirs[q.drop_last()].contains(q) by {
                if q == tk {
                    if to_exists {
                        assert(pre.dirs[tpk].contains(tk));
                    }
                    assert(post.dirs[tpk].contains(tk));
                } else {
                    assert(pre.files.contains_key(q));
                    assert(pre.dirs[q.drop_last()].contains(q));
                    assert(q != fk);
                }
            }
            assert forall|d: Seq<Seq<u8>>, c: Seq<Seq<u8>>|
                post.dirs.contains_key(d) && #[trigger] post.dirs[d].contains(c) implies
                post.files.contains_key(c) && c.len() > 0 && c.drop_last() == d by {
                if c == tk {
                    if d == tpk {
                    } else {
                        assert(pre.dirs.contains_key(d) && pre.dirs[d].contains(c));
                    }
                } else {
                    assert(pre.dirs.contains_key(d) && pre.dirs[d].contains(c));
                    assert(c != fk || d == fpk);
                }
            }
            assert forall|q: Seq<Seq<u8>>| #[trigger]
                post.files.contains_key(q) && post.files[q] is Buffer implies (post.files[
                q
            ]->id as int) < post.buffers.len() by {
                if q != tk {
                    assert(pre.files.contains_key(q));
                }
            }
            assert forall|q: Seq<Seq<u8>>| #[trigger]
                self.dirs.to_map().contains_key(q) implies child_list_wf(
                self.dirs.to_map()[q]@,
            ) by {
                if q != fpk && q != tpk {
                    assert(self.dirs.to_map()[q] == old(self).dirs.to_map()[q]);
                }
            }
        }
        Ok(())
    }

    /// Remove the directory at `path` together with everything beneath it.
    ///
    /// On the root the whole tree resets to an empty root directory. Fails
    /// with the unsupported-kind error for a relative path and with the
    /// not-found-kind error when no directory exists at `path`. No orphan
    /// is left behind: afterwards the tree holds exactly the entries that
    /// were not under `path`, and the coordination invariant still holds.
    pub fn remove_dir_all(&mut self, path: &PathId) -> (r: Result<(), FsError>)
        requires
            old(self).wf(),
        ensures
            final(self).wf(),
            final(self).fsync_state() == old(self).fsync_state(),
            final(self).view().buffers == old(self).view().buffers,
            match r {
                Ok(()) => {
                    &&& path.absolute
                    &&& old(self).view().dirs.contains_key(path.key())
                    &&& forall|q: Seq<Seq<u8>>| #[trigger]
                        final(self).view().files.contains_key(q) <==> ((old(
                            self,
                        ).view().files.contains_key(q) && !is_under(path.key(), q)) || q
                            == root_key())
                    &&& forall|q: Seq<Seq<u8>>| #[trigger]
                        final(self).view().files.contains_key(q) ==> final(self).view().files[q]
                            == old(self).view().files[q]
                    &&& forall|q: Seq<Seq<u8>>| #[trigger]
                        final(self).view().dirs.contains_key(q) <==> ((old(
                            self,
                        ).view().dirs.contains_key(q) && !is_under(path.key(), q)) || q
                            == root_key())
                    &&& path.key().len() > 0 ==> final(self).view().dirs[path.key().drop_last()]
                        == old(self).view().dirs[path.key().drop_last()].remove(path.key())
                    &&& path.key().len() > 0 ==> (forall|q: Seq<Seq<u8>>| #[trigger]
                        final(self).view().dirs.contains_key(q) && q != path.key().drop_last()
                            ==> final(self).view().dirs[q] == old(self).view().dirs[q])
                    &&& path.key().len() == 0 ==> final(self).view().dirs == Map::<
                        Seq<Seq<u8>>,
                        Set<Seq<Seq<u8>>>,
                    >::empty().insert(root_key(), Set::empty())
                },
                Err(e) => *final(self) == *old(self) && match e {
                    FsError::Unsupported => !path.absolute,
                    FsError::NotFound => path.absolute && !old(self).view().dirs.contains_key(
                        path.key(),
                    ),
                    _ => false,
                },
            },
    {
        if let Err(e) = check_path(path) {
            return Err(e);
        }
        if !self.dirs.contains(path) {
            return Err(FsError::NotFound);
        }
        let ghost pre = self.view();
        let ghost k = path.key();
        if path.depth() == 0 {
            // Removing the root resets the whole tree.
            proof {
                assert(k =~= root_key());
            }
            let root = PathId { absolute: true, segments: Vec::new() };
            proof {
                assert(root.key() =~= root_key());
            }
            self.files.clear();
            self.dirs.clear();
            let empty_children: Vec<PathId> = Vec::new();
            self.dirs.insert(root.clone(), empty_children);
            self.files.insert(root, FileNode::Directory);
            proof {
                let post = self.view();
                assert(post.files =~= Map::empty().insert(root_key(), FileNode::Directory));
                lemma_child_set_empty();
                assert(post.dirs =~= Map::empty().insert(
                    root_key(),
                    Set::<Seq<Seq<u8>>>::empty(),
                ));
                assert(post.buffers =~= pre.buffers);
                assert(fs_inv(post));
                assert forall|q: Seq<Seq<u8>>| #[trigger]
                    post.files.contains_key(q) <==> ((pre.files.contains_key(q) && !is_under(k, q))
                        || q == root_key()) by {
                    if q != root_key() {
                        assert(k.len() == 0);
                        assert(q.subrange(0, 0) =~= root_key());
                        assert(is_under(k, q));
                    }
                }
                assert forall|q: Seq<Seq<u8>>| #[trigger]
                    post.dirs.contains_key(q) <==> ((pre.dirs.contains_key(q) && !is_under(k, q))
                        || q == root_key()) by {
                    if q != root_key() {
                        assert(k.len() == 0);
                        assert(q.subrange(0, 0) =~= root_key());
                        assert(is_under(k, q));
                    }
                }
            }
            Ok(())
        } else {
            self.files.remove_subtree(path);
            self.dirs.remove_subtree(path);
            let ghost pk = path.key().drop_last();
            let parent = match path.parent() {
                Some(p) => p,
                None => {
                    proof {
                        assert(false);
                    }
                    unreached()
                },
            };
            proof {
                if is_under(k, pk) {
                    assert(false);
                }
            }
            let ghost filtered = self.dirs.to_map();
            let children_opt = self.dirs.remove(&parent);
            match children_opt {
                Some(mut list) => {
                    proof {
                        assert(list@ == filtered[pk]@);
                        assert(filtered[pk] == old(self).dirs.to_map()[pk]);
                    }
                    unlink_child(&mut list, path);
                    self.dirs.insert(parent, list);
                },
                None => {
                    proof {
                        assert(pre.dirs.contains_key(k));
                        assert(pre.files.contains_key(k));
                        assert(pre.dirs.contains_key(pk));
                        assert(pk.len() == k.len() - 1);
                        assert(!is_under(k, pk));
                        assert(false);
                    }
                    unreached()
                },
            }
            proof {
                let post = self.view();
                assert forall|q: Seq<Seq<u8>>| #[trigger]
                    post.dirs.contains_key(q) <==> (pre.dirs.contains_key(q) && !is_under(
                        k,
                        q,
                    )) by {}
                assert forall|q: Seq<Seq<u8>>| #[trigger]
                    post.dirs.contains_key(q) <==> ((pre.dirs.contains_key(q) && !is_under(k, q))
                        || q == root_key()) by {
                    if q == root_key() {
                        assert(!is_under(k, q));
                        assert(pre.dirs.contains_key(root_key()));
                    }
                }
                assert(post.dirs[pk] =~= pre.dirs[pk].remove(k));
                assert forall|q: Seq<Seq<u8>>|
                    #[trigger] post.dirs.contains_key(q) && q != pk implies post.dirs[q]
                    == pre.dirs[q] by {
                    assert(self.dirs.to_map()[q] == old(self).dirs.to_map()[q]);
                }
                assert forall|q: Seq<Seq<u8>>| #[trigger]
                    post.files.contains_key(q) <==> ((pre.files.contains_key(q) && !is_under(k, q))
                        || q == root_key()) by {
                    if q == root_key() {
                        assert(!is_under(k, q));
                    }
                }
                assert(post.buffers =~= pre.buffers);
                assert(!is_under(k, root_key()));
                assert(post.files.contains_key(root_key()));
                assert(post.files[root_key()] is Directory);
                assert forall|q: Seq<Seq<u8>>| #[trigger]
                    post.dirs.contains_key(q) <==> (post.files.contains_key(q) && post.files[q]
                        is Directory) by {
                    if post.files.contains_key(q) && post.files[q] is Directory {
                        assert(pre.files.contains_key(q) && !is_under(k, q));
                        assert(pre.dirs.contains_key(q));
                    }
                    if post.dirs.contains_key(q) {
                        assert(pre.dirs.contains_key(q) && !is_under(k, q));
                        assert(pre.files.contains_key(q) && pre.files[q] is Directory);
                    }
                }
                assert forall|q: Seq<Seq<u8>>| #[trigger]
                    post.files.contains_key(q) && q.len() > 0 implies post.dirs.contains_key(
                    q.drop_last(),
                ) && post.dirs[q.drop_last()].contains(q) by {
                    assert(pre.files.contains_key(q) && !is_under(k, q));
                    if is_under(k, q.drop_last()) {
                        lemma_parent_under(q);
                        lemma_under_trans(k, q.drop_last(), q);
                        assert(false);
                    }
                    if q == k {
                        assert(k.subrange(0, k.len() as int) =~= k);
                        assert(false);
                    }
                    assert(pre.dirs.contains_key(q.drop_last()));
                    assert(pre.dirs[q.drop_last()].contains(q));
                    assert(post.dirs.contains_key(q.drop_last()));
                    if q.drop_last() == pk {
                        assert(post.dirs[pk].contains(q));
                    } else {
                        assert(post.dirs[q.drop_last()] == pre.dirs[q.drop_last()]);
                    }
                }
                assert forall|d: Seq<Seq<u8>>, c: Seq<Seq<u8>>|
                    post.dirs.contains_key(d) && #[trigger] post.dirs[d].contains(c) implies
                    post.files.contains_key(c) && c.len() > 0 && c.drop_last() == d by {
                    assert(pre.dirs.contains_key(d) && pre.dirs[d].contains(c));
                    assert(!is_under(k, d));
                    if is_under(k, c) {
                        if k.len() < c.len() {
                            lemma_under_parent(k, c);
                            assert(false);
                        } else {
                            assert(c.subrange(0, c.len() as int) =~= c);
                            assert(c =~= k);
                            if d == pk {
                                assert(!post.dirs[pk].contains(k));
                            } else {
                                assert(c.drop_last() == d);
                                assert(false);
                            }
                        }
                    }
                }
                assert forall|q: Seq<Seq<u8>>| #[trigger]
                    post.files.contains_key(q) && post.files[q] is Buffer implies (post.files[
                    q
                ]->id as int) < post.buffers.len() by {
                    assert(pre.files.contains_key(q));
                }
                assert forall|q: Seq<Seq<u8>>| #[trigger]
                    self.dirs.to_map().contains_key(q) implies child_list_wf(
                    self.dirs.to_map()[q]@,
                ) by {
                    if q != pk {
                        assert(self.dirs.to_map()[q] == old(self).dirs.to_map()[q]);
                    }
                }
            }
            Ok(())
        }
    }

    /// The children of the directory at `path`, in no particular order.
    ///
    /// Fails with the unsupported-kind error for a relative path and with
    /// the not-found-kind error when no directory exists there.
    pub fn list(&self, path: &PathId) -> (r: Result<Vec<PathId>, FsError>)
        requires
            self.wf(),
        ensures
            match r {
                Ok(v) => path.absolute && self.view().dirs.contains_key(path.key())
                    && child_list_wf(v@) && child_set(v@) == self.view().dirs[path.key()],
                Err(e) => match e {
                    FsError::Unsupported => !path.absolute,
                    FsError::NotFound => path.absolute && !self.view().dirs.contains_key(
                        path.key(),
                    ),
                    _ => false,
                },
            },
    {
        if let Err(e) = check_path(path) {
            return Err(e);
        }
        match self.dirs.get(path) {
            None => Err(FsError::NotFound),
            Some(list) => {
                let mut out: Vec<PathId> = Vec::new();
                let mut i: usize = 0;
                while i < list.len()
                    invariant
                        i <= list@.len(),
                        child_list_wf(list@),
                        out@.len() == i,
                        forall|j: int|
                            0 <= j < i ==> (#[trigger] out@[j]).key() == list@[j].key() && out@[
                                j
                            ].absolute == list@[j].absolute,
                    decreases list@.len() - i,
                {
                    out.push(list[i].clone());
                    i = i + 1;
                }
                proof {
                    assert forall|q: Seq<Seq<u8>>| child_set(out@).contains(q) implies child_set(
                        list@,
                    ).contains(q) by {
                        let j = choose|j: int|
                            0 <= j < out@.len() && (#[trigger] out@[j]).key() == q;
                        assert(list@[j].key() == q);
                    }
                    assert forall|q: Seq<Seq<u8>>| child_set(list@).contains(q) implies child_set(
                        out@,
                    ).contains(q) by {
                        let j = choose|j: int|
                            0 <= j < list@.len() && (#[trigger] list@[j]).key() == q;
                        assert(out@[j].key() == q);
                    }
                    assert(child_set(out@) =~= child_set(list@));
                }
                Ok(out)
            },
        }
    }

    /// Flush the contents of the file at `path` by opening a read handle
    /// and syncing it; in memory this succeeds whenever the entry exists.
    pub fn sync_data(&mut self, path: &PathId) -> (r: Result<(), FsError>)
        requires
            old(self).wf(),
        ensures
            final(self).wf(),
            *final(self) == *old(self),
            r.is_ok() == (path.absolute && old(self).view().files.contains_key(path.key())),
    {
        let options = OpenOptions::new().read(true);
        match self.open(path, options) {
            Ok(handle) => handle.sync_data(),
            Err(e) => Err(e),
        }
    }

    /// Flush the contents and metadata of the file at `path` by opening a
    /// read handle and syncing it; in memory this succeeds whenever the
    /// entry exists.
    pub fn sync_all(&mut self, path: &PathId) -> (r: Result<(), FsError>)
        requires
            old(self).wf(),
        ensures
            final(self).wf(),
            *final(self) == *old(self),
            r.is_ok() == (path.absolute && old(self).view().files.contains_key(path.key())),
    {
        let options = OpenOptions::new().read(true);
        match self.open(path, options) {
            Ok(handle) => handle.sync_all(),
            Err(e) => Err(e),
        }
    }

    /// A fresh durability batch bound to this manager's durability
    /// subsystem. Fails with the shutdown-kind error once the manager has
    /// been shut down.
    pub fn new_fsync_batch(&mut self) -> (r: Result<FSyncBatch, FSyncError>)
        requires
            old(self).wf(),
        ensures
            final(self).wf(),
            final(self).view() == old(self).view(),
            match r {
                Ok(batch) => {
                    &&& !(old(self).fsync_state() is Shutdown)
                    &&& final(self).fsync_state() is Running
                    &&& batch.inv()
                    &&& batch.queued() == 0
                    &&& batch.completed() == 0
                    &&& batch.pending() == 0
                },
                Err(e) => {
                    &&& old(self).fsync_state() is Shutdown
                    &&& final(self).fsync_state() is Shutdown
                    &&& e is Shutdown
                },
            },
    {
        self.fsyncs.new_batch()
    }

    /// Shut the durability subsystem down; its state becomes terminal.
    pub fn shutdown(&mut self) -> (r: Result<(), FsError>)
        requires
            old(self).wf(),
        ensures
            r.is_ok(),
            final(self).wf(),
            final(self).view() == old(self).view(),
            final(self).fsync_state() is Shutdown,
    {
        match self.fsyncs.shutdown() {
            Ok(()) => Ok(()),
            Err(_) => {
                proof {
                    assert(false);
                }
                unreached()
            },
        }
    }
}

/// A well-formed manager's abstract state satisfies the coordination
/// invariant. This is the bridge from the operations' `wf` guarantee to the
/// laws stated over [`fs_inv`]: with it a caller can discharge their
/// hypotheses, derive child-set effects from the file-table clauses, and,
/// for instance, conclude after `create_dir_all` that the new directory is
/// in the directory table, which is what a creating `open` beneath it
/// needs.
pub proof fn lemma_wf_coordination(m: &MemoryFileManager)
    requires
        m.wf(),
    ensures
        fs_inv(m.view()),
{
}

impl Default for MemoryFileManager {
    /// A manager holding only the root directory, with the fallback thread
    /// cap for its durability subsystem.
    fn default() -> (r: Self)
        ensures
            r.wf(),
            r.view().files =~= Map::empty().insert(root_key(), FileNode::Directory),
            r.view().dirs =~= Map::empty().insert(root_key(), Set::empty()),
            r.view().buffers == Seq::<Seq<u8>>::empty(),
            r.fsync_state() == (ThreadState::Uninitialized { maximum_threads: 4usize }),
    {
        MemoryFileManager::new(4)
    }
}

} // verus!
