//! The library's laws: properties that relate several operations, stated
//! and proved over the abstract filesystem state and the operations'
//! contracts.

use vstd::prelude::*;
use crate::memory::FileNode;
use crate::memory::FsView;
use crate::memory::fs_inv;
use crate::memory::root_key;
use crate::path::PathId;
use crate::path::absolute_of;
use crate::path::is_under;
use crate::path::segments_of;

verus! {

/// Law: existence tracks the file table. After a successful `open` the
/// opened path is a key of the file table, so `exists_at` reports `true`;
/// after a successful `remove_file` of that path the key is gone, so
/// `exists_at` reports `false`. The hypotheses are exactly what the two
/// operations ensure of the file table.
pub proof fn law_open_then_remove_visibility(
    pre: FsView,
    opened: FsView,
    removed: FsView,
    k: Seq<Seq<u8>>,
    node: FileNode,
)
    requires
        opened.files == pre.files.insert(k, node) || (opened.files == pre.files
            && pre.files.contains_key(k)),
        removed.files == opened.files.remove(k),
    ensures
        opened.files.contains_key(k),
        !removed.files.contains_key(k),
{
}

/// Law: a write-then-read round trip through a fresh handle returns the
/// written bytes. Writing `data` at cursor zero onto an empty buffer leaves
/// exactly `data` in it — that is `write`'s contract on a newly created
/// file — and a read from cursor zero of at least that many bytes returns
/// the whole buffer — that is `read`'s contract on a fresh handle.
pub proof fn law_write_read_round_trip(
    oldb: Seq<u8>,
    written: Seq<u8>,
    data: Seq<u8>,
    out: Seq<u8>,
    max: int,
)
    requires
        oldb.len() == 0,
        written == oldb + Seq::new(0, |j: int| 0u8) + data,
        max >= data.len(),
        out == written.subrange(0, vstd::math::min(written.len() as int, max)),
    ensures
        out == data,
{
    assert(written =~= data);
    assert(out =~= data);
}

/// Law: a write of `N` bytes with the cursor past end-of-file grows the
/// file to `cursor + N`, the gap reads as zeros, and the written bytes land
/// at the cursor. The hypothesis is `write`'s contract in its past-the-end
/// regime.
pub proof fn law_write_past_end_zero_fills(
    oldb: Seq<u8>,
    written: Seq<u8>,
    data: Seq<u8>,
    cursor: int,
)
    requires
        cursor >= oldb.len(),
        written == oldb + Seq::new((cursor - oldb.len()) as nat, |j: int| 0u8) + data,
    ensures
        written.len() == cursor + data.len(),
        forall|i: int| oldb.len() <= i < cursor ==> written[i] == 0u8,
        forall|i: int| 0 <= i < data.len() ==> written[cursor + i] == data[i],
{
}

/// Law: truncating below the cursor moves the cursor to the new end, and
/// never otherwise. The hypothesis is `set_len`'s contract on the cursor.
pub proof fn law_set_len_clamps_cursor(cursor_before: nat, cursor_after: nat, new_length: nat)
    requires
        cursor_after == if cursor_before > new_length {
            new_length
        } else {
            cursor_before
        },
    ensures
        new_length < cursor_before ==> cursor_after == new_length,
        new_length >= cursor_before ==> cursor_after == cursor_before,
{
}

/// Law: construction is canonical. Two handles built from the same path
/// text agree on the canonical form, so they compare equal under the
/// handle's equality. The hypotheses are `PathId::from`'s contract for each
/// handle.
pub proof fn law_path_id_round_trip(a: PathId, b: PathId, s: Seq<u8>)
    requires
        a.absolute == absolute_of(s) && a.key() == segments_of(s),
        b.absolute == absolute_of(s) && b.key() == segments_of(s),
    ensures
        a.absolute == b.absolute,
        a.key() == b.key(),
{
}

/// Law: `parent` undoes `join` of a single segment: joining one segment
/// onto a path and taking the parent of the result gives back the path's
/// canonical form.
pub proof fn law_parent_of_join(base: Seq<Seq<u8>>, tail: Seq<Seq<u8>>)
    requires
        tail.len() == 1,
    ensures
        (base + tail).drop_last() == base,
{
    assert((base + tail).drop_last() =~= base);
}

/// Law: under the coordination invariant the directory table carries no
/// information of its own: which keys are directories and which children
/// each holds are both determined by the file table. A contract that pins
/// the file table therefore pins the whole tree.
pub proof fn law_dirs_determined_by_files(s: FsView)
    requires
        fs_inv(s),
    ensures
        forall|d: Seq<Seq<u8>>| #[trigger]
            s.dirs.contains_key(d) <==> (s.files.contains_key(d) && s.files[d] is Directory),
        forall|d: Seq<Seq<u8>>, c: Seq<Seq<u8>>|
            s.dirs.contains_key(d) ==> (#[trigger] s.dirs[d].contains(c) <==> (
            s.files.contains_key(c) && c.len() > 0 && c.drop_last() == d)),
{
}

/// Law: the contracts are deterministic: an operation's outcome is a
/// function of the abstract state and its arguments alone, so two clones
/// sharing one state observe the same filesystem whichever of them performs
/// an operation. Stated for the file-creating `open`: two runs of its
/// contract from equal states allocate the same buffer and produce equal
/// states.
pub proof fn law_open_create_deterministic(
    pre: FsView,
    post1: FsView,
    post2: FsView,
    k: Seq<Seq<u8>>,
    id1: usize,
    id2: usize,
)
    requires
        id1 == pre.buffers.len(),
        post1.files == pre.files.insert(k, (FileNode::Buffer { id: id1 })),
        post1.buffers == pre.buffers.push(Seq::<u8>::empty()),
        id2 == pre.buffers.len(),
        post2.files == pre.files.insert(k, (FileNode::Buffer { id: id2 })),
        post2.buffers == pre.buffers.push(Seq::<u8>::empty()),
    ensures
        id1 == id2,
        post1.files == post2.files,
        post1.buffers == post2.buffers,
{
}

/// Law: removing a subtree leaves no orphans. Afterwards nothing under the
/// removed path survives, every surviving entry's parent directory
/// survives with a child link to it, and every remaining child link points
/// at a surviving entry. The hypotheses are `remove_dir_all`'s contract:
/// the file-table filtering and the preserved coordination invariant.
pub proof fn law_remove_dir_all_no_orphans(pre: FsView, post: FsView, k: Seq<Seq<u8>>)
    requires
        fs_inv(post),
        k.len() > 0,
        forall|q: Seq<Seq<u8>>| #[trigger]
            post.files.contains_key(q) <==> ((pre.files.contains_key(q) && !is_under(k, q)) || q
                == root_key()),
    ensures
        forall|q: Seq<Seq<u8>>| #[trigger]
            post.files.contains_key(q) ==> !is_under(k, q),
        forall|q: Seq<Seq<u8>>| #[trigger]
            post.files.contains_key(q) && q.len() > 0 ==> post.files.contains_key(q.drop_last())
                && post.dirs.contains_key(q.drop_last()) && post.dirs[q.drop_last()].contains(q),
        forall|d: Seq<Seq<u8>>, c: Seq<Seq<u8>>|
            post.dirs.contains_key(d) && #[trigger] post.dirs[d].contains(c)
                ==> post.files.contains_key(c),
{
    assert forall|q: Seq<Seq<u8>>| #[trigger] post.files.contains_key(q) implies !is_under(
        k,
        q,
    ) by {
        if q == root_key() {
            assert(!is_under(k, q));
        }
    }
}

} // verus!
