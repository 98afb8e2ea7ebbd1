//! What each operation answers and how it changes the state, said over the
//! tree; and what follows from that for any run of operations.

use vstd::prelude::*;
use super::error::FsError;
use super::inter::directory::{
    find, has_name, lemma_find_contains, lemma_put, lemma_without, put, sorted, without, EntryView,
};
use super::inter::node::{empty_directory, empty_file, FileKind, NodeView};
use super::moving::{lemma_rename_ready, lemma_renamed_wf, moved, renamed};
use super::subtree::{lemma_pruned_wf, pruned};
use super::tree::{
    lemma_linked_wf, lemma_unlinked_wf, linked, under, unlinked, without_entry, FsView, ROOT_INO,
};

verus! {

/// The bytes that a read of `size` bytes at `offset` returns: what the
/// content holds from `offset` on, `size` bytes at most, and nothing where
/// `offset` is at or past the end.
pub open spec fn read_range(content: Seq<u8>, offset: u64, size: u32) -> Seq<u8> {
    if offset >= content.len() {
        Seq::empty()
    } else if offset + size <= content.len() {
        content.subrange(offset as int, offset + size)
    } else {
        content.subrange(offset as int, content.len() as int)
    }
}

/// The content after `data` was written at `offset`: what was there before
/// `offset`, zeros up to `offset` where it was shorter, then `data`. The
/// file ends where the write ends.
pub open spec fn written(content: Seq<u8>, offset: u64, data: Seq<u8>) -> Seq<u8> {
    Seq::new(
        (offset + data.len()) as nat,
        |i: int|
            if i < offset {
                if i < content.len() {
                    content[i]
                } else {
                    0u8
                }
            } else {
                data[i - offset]
            },
    )
}

/// Why `ino` cannot be read or written as a file, if so.
pub open spec fn file_error(v: FsView, ino: u64) -> Option<FsError> {
    if !v.nodes.contains_key(ino) {
        Some(FsError::NotFound)
    } else if !v.nodes[ino].is_file() {
        Some(FsError::InvalidArgument)
    } else {
        None
    }
}

/// Why `data` cannot be written to `ino` at `offset`, if so: `ino` is not
/// there, it is no file, or the write would end past what a buffer can hold.
pub open spec fn write_error(v: FsView, ino: u64, offset: u64, len: nat) -> Option<FsError> {
    if file_error(v, ino) is Some {
        file_error(v, ino)
    } else if offset + len > usize::MAX {
        Some(FsError::InvalidArgument)
    } else {
        None
    }
}

/// Why the child `name` of `parent` cannot be unlinked, if so: there is no
/// such child, or it is a directory.
pub open spec fn unlink_error(v: FsView, parent: u64, name: Seq<char>) -> Option<FsError> {
    match v.child(parent, name) {
        None => Some(FsError::NotFound),
        Some(ino) => if v.nodes[ino].is_dir() {
            Some(FsError::InvalidArgument)
        } else {
            None
        },
    }
}

/// One line of a directory listing.
pub struct DirItem {
    pub ino: u64,
    pub index: u64,
    pub kind: FileKind,
    pub name: String,
}

/// What a `DirItem` stands for.
pub struct ItemView {
    pub ino: u64,
    pub index: nat,
    pub kind: FileKind,
    pub name: Seq<char>,
}

impl View for DirItem {
    type V = ItemView;

    open spec fn view(&self) -> ItemView {
        ItemView { ino: self.ino, index: self.index as nat, kind: self.kind, name: self.name@ }
    }
}

/// What a list of `DirItem`s stands for.
pub open spec fn item_views(items: Seq<DirItem>) -> Seq<ItemView> {
    items.map_values(|x: DirItem| x@)
}

/// The two lines that open a listing of the directory `ino`: itself as
/// `.`, and its stored parent as `..`.
pub open spec fn dot_items(v: FsView, ino: u64) -> Seq<ItemView> {
    seq![
        ItemView { ino, index: 1, kind: FileKind::Directory, name: "."@ },
        ItemView { ino: v.nodes[ino].parent, index: 2, kind: FileKind::Directory, name: ".."@ },
    ]
}

/// The line for the child at `place` in the directory `ino`.
pub open spec fn child_item(v: FsView, ino: u64, place: int) -> ItemView {
    let e = v.nodes[ino].entries()[place];
    ItemView { ino: e.ino, index: (place + 2) as nat, kind: v.nodes[e.ino].kind, name: e.name }
}

/// The lines for the children of the directory `ino` from place `from` on,
/// in the order of their names.
pub open spec fn child_items(v: FsView, ino: u64, from: int) -> Seq<ItemView> {
    let n = v.nodes[ino].entries().len();
    if 0 <= from <= n {
        Seq::new((n - from) as nat, |i: int| child_item(v, ino, from + i))
    } else {
        Seq::empty()
    }
}

/// What a listing of the directory `ino` from `offset` on holds: at offset 0
/// the two opening lines and all children; at any other offset the children
/// without the first `offset` of them.
pub open spec fn listing(v: FsView, ino: u64, offset: u64) -> Seq<ItemView> {
    if offset == 0 {
        dot_items(v, ino) + child_items(v, ino, 0)
    } else {
        child_items(v, ino, offset as int)
    }
}

/// Why `ino` cannot be listed, if so: it is not there, or it is no directory.
pub open spec fn dir_error(v: FsView, ino: u64) -> Option<FsError> {
    if !v.nodes.contains_key(ino) {
        Some(FsError::NotFound)
    } else if !v.nodes[ino].is_dir() {
        Some(FsError::InvalidArgument)
    } else {
        None
    }
}

/// Why the child `name` of `parent` cannot be removed as a directory, if so:
/// there is no such child, or it is a file.
pub open spec fn rmdir_error(v: FsView, parent: u64, name: Seq<char>) -> Option<FsError> {
    match v.child(parent, name) {
        None => Some(FsError::NotFound),
        Some(ino) => if v.nodes[ino].is_dir() {
            None
        } else {
            Some(FsError::InvalidArgument)
        },
    }
}

/// The flag of a rename that must not replace an entry.
pub const RENAME_NOREPLACE: u32 = 1;

/// The flags ask that no entry be replaced.
pub open spec fn no_replace(flags: u32) -> bool {
    flags & RENAME_NOREPLACE != 0
}

/// Why the child `name` of `parent` cannot become the child `newname` of
/// `newparent`, if so: there is no such child; `newparent` is not there or
/// is no directory; `newparent` is the entry itself or lies below it;
/// `newname` is taken and must not be replaced; or `newname` is taken by
/// another directory that has children.
pub open spec fn rename_error(
    v: FsView,
    parent: u64,
    name: Seq<char>,
    newparent: u64,
    newname: Seq<char>,
    flags: u32,
) -> Option<FsError> {
    match v.child(parent, name) {
        None => Some(FsError::NotFound),
        Some(ino) => if !v.nodes.contains_key(newparent) {
            Some(FsError::NotFound)
        } else if !v.nodes[newparent].is_dir() {
            Some(FsError::InvalidArgument)
        } else if under(v.nodes, ino, newparent) {
            Some(FsError::InvalidArgument)
        } else {
            match v.child(newparent, newname) {
                None => None,
                Some(other) => if no_replace(flags) {
                    Some(FsError::AlreadyExists)
                } else if other != ino && v.nodes[other].entries().len() > 0 {
                    Some(FsError::AlreadyExists)
                } else {
                    None
                },
            }
        },
    }
}

/// A new node of the given kind under `parent`.
pub open spec fn empty_node(kind: FileKind, parent: u64) -> NodeView {
    match kind {
        FileKind::Directory => empty_directory(parent),
        FileKind::RegularFile => empty_file(parent),
    }
}

/// Why nothing can be created as `name` under `parent`, if so: the parent is
/// not there, it is no directory, the name is taken, or no id is left.
pub open spec fn create_error(v: FsView, parent: u64, name: Seq<char>) -> Option<FsError> {
    if !v.nodes.contains_key(parent) {
        Some(FsError::NotFound)
    } else if !v.nodes[parent].is_dir() {
        Some(FsError::InvalidArgument)
    } else if has_name(v.nodes[parent].entries(), name) {
        Some(FsError::AlreadyExists)
    } else if v.next_ino == u64::MAX {
        Some(FsError::InvalidArgument)
    } else {
        None
    }
}

/// The state after a node of the given kind was created as `name` under
/// `parent`: it got the next id, and the counter moved on.
pub open spec fn created(v: FsView, parent: u64, name: Seq<char>, kind: FileKind) -> FsView {
    FsView {
        nodes: linked(v.nodes, parent, name, v.next_ino, empty_node(kind, parent)),
        next_ino: (v.next_ino + 1) as u64,
    }
}

/// A read at the place of a write, of as many bytes as were written,
/// returns those bytes, and the file is as long as the write's end.
pub proof fn lemma_read_back(content: Seq<u8>, offset: u64, data: Seq<u8>)
    requires
        data.len() <= u32::MAX,
        offset + data.len() <= u64::MAX,
    ensures
        read_range(written(content, offset, data), offset, data.len() as u32) == data,
        written(content, offset, data).len() == offset + data.len(),
{
    assert(read_range(written(content, offset, data), offset, data.len() as u32) =~= data);
}

/// A write at an offset past the end of the content fills the gap with
/// zeros, and keeps what was there.
pub proof fn lemma_write_zero_fills(content: Seq<u8>, offset: u64, data: Seq<u8>, i: int)
    requires
        0 <= i < offset,
    ensures
        written(content, offset, data)[i] == if i < content.len() {
            content[i]
        } else {
            0u8
        },
{
}

/// A listing from offset 0 holds two lines more than the directory has
/// children. A listing from any other offset is what the listing from
/// offset 0 holds after its first `offset + 2` lines: the pages of a
/// directory, one after the other, line up with the single pass.
pub proof fn lemma_listing_pages(v: FsView, ino: u64, offset: u64)
    requires
        offset >= 1,
    ensures
        listing(v, ino, 0).len() == v.nodes[ino].entries().len() + 2,
        offset + 2 <= listing(v, ino, 0).len() ==> listing(v, ino, offset) == listing(
            v,
            ino,
            0,
        ).subrange(offset + 2, listing(v, ino, 0).len() as int),
        offset + 2 > listing(v, ino, 0).len() ==> listing(v, ino, offset).len() == 0,
{
    let full = listing(v, ino, 0);
    let n = v.nodes[ino].entries().len();
    assert(full.len() == n + 2);
    if offset + 2 <= full.len() {
        assert(listing(v, ino, offset) =~= full.subrange(offset + 2, full.len() as int));
    }
}

/// The line at place `k` of a page that starts at `offset` is the line of
/// the child at place `offset + k`, whatever the page.
pub proof fn lemma_listing_line(v: FsView, ino: u64, offset: u64, k: int)
    requires
        offset >= 1,
        0 <= k,
        offset + k < v.nodes[ino].entries().len(),
    ensures
        listing(v, ino, offset)[k] == child_item(v, ino, offset + k),
        listing(v, ino, 0)[offset + k + 2] == child_item(v, ino, offset + k),
{
}

/// The id that the next creation hands out is past the root and in no use,
/// so no id is ever handed out twice.
pub proof fn lemma_next_ino_unused(v: FsView)
    requires
        v.wf(),
    ensures
        v.next_ino > ROOT_INO,
        !v.nodes.contains_key(v.next_ino),
{
}

/// In every directory of a well-formed filesystem a name maps to one id
/// only.
pub proof fn lemma_names_unique(v: FsView, parent: u64, e1: EntryView, e2: EntryView)
    requires
        v.wf(),
        v.nodes.contains_key(parent),
        v.nodes[parent].entries().contains(e1),
        v.nodes[parent].entries().contains(e2),
        e1.name == e2.name,
    ensures
        e1.ino == e2.ino,
{
    let s = v.nodes[parent].entries();
    assert(v.nodes[parent].wf());
    if v.nodes[parent].children is None {
        assert(s =~= Seq::<EntryView>::empty());
    }
    lemma_find_contains(s, e1.name, e1.ino);
    lemma_find_contains(s, e2.name, e2.ino);
}

/// Under a directory, a creation answers that the name is taken exactly
/// where it is taken, by a file or by a directory. Where it is free the
/// creation succeeds, unless the counter has come to the last number and
/// no id is left to hand out.
pub proof fn lemma_create_collision(v: FsView, parent: u64, name: Seq<char>)
    requires
        v.wf(),
        v.nodes.contains_key(parent),
        v.nodes[parent].is_dir(),
    ensures
        create_error(v, parent, name) == Some(FsError::AlreadyExists) <==> v.child(parent, name)
            is Some,
        v.child(parent, name) is None ==> (create_error(v, parent, name) is None <==> v.next_ino
            < u64::MAX),
        v.child(parent, name) is None && v.next_ino == u64::MAX ==> create_error(v, parent, name)
            == Some(FsError::InvalidArgument),
{
}

/// Of two creations of one name under one parent, whichever comes first
/// succeeds and the other finds the name taken, whatever kinds they ask
/// for. The first gives the table one new id, the counter's, and the
/// directory one new pair, the name and that id; the second changes
/// nothing.
pub proof fn lemma_create_twice(v: FsView, parent: u64, name: Seq<char>, kind: FileKind)
    requires
        v.wf(),
        create_error(v, parent, name) is None,
    ensures
        ({
            let w = created(v, parent, name, kind);
            &&& w.wf()
            &&& w.child(parent, name) == Some(v.next_ino)
            &&& create_error(w, parent, name) == Some(FsError::AlreadyExists)
            &&& !v.nodes.contains_key(v.next_ino)
            &&& w.nodes.dom() == v.nodes.dom().insert(v.next_ino)
            &&& w.nodes[v.next_ino] == empty_node(kind, parent)
            &&& w.nodes[parent].entries() == put(v.nodes[parent].entries(), name, v.next_ino)
            &&& w.next_ino == v.next_ino + 1
            &&& forall|id: u64|
                v.nodes.contains_key(id) && id != parent ==> #[trigger] w.nodes[id] == v.nodes[id]
        }),
{
    let w = created(v, parent, name, kind);
    lemma_linked_wf(v.nodes, parent, name, v.next_ino, empty_node(kind, parent));
    assert(v.nodes[parent].wf());
    lemma_put(v.nodes[parent].entries(), name, v.next_ino);
    assert(w.nodes[parent].entries() == put(v.nodes[parent].entries(), name, v.next_ino));
    assert(w.nodes.dom() =~= v.nodes.dom().insert(v.next_ino));
}

/// After a file was unlinked its name resolves no longer, and its id is
/// not in the table.
pub proof fn lemma_unlink_removes(v: FsView, parent: u64, name: Seq<char>)
    requires
        v.wf(),
        unlink_error(v, parent, name) is None,
    ensures
        ({
            let ino = v.child(parent, name)->0;
            let w = FsView { nodes: unlinked(v.nodes, parent, name, ino), next_ino: v.next_ino };
            &&& w.wf()
            &&& w.child(parent, name) is None
            &&& !w.nodes.contains_key(ino)
        }),
{
    let ino = v.child(parent, name)->0;
    let s = v.nodes[parent].entries();
    assert(v.nodes[parent].wf());
    if v.nodes[parent].children is None {
        assert(s =~= Seq::<EntryView>::empty());
    }
    lemma_find_contains(s, name, ino);
    assert(v.nodes[ino].entries() =~= Seq::<EntryView>::empty());
    lemma_unlinked_wf(v.nodes, parent, name, ino);
    lemma_without(s, name);
}

/// After a directory was removed its name resolves no longer, and neither
/// its id nor the id of anything that lay below it is in the table; what
/// did not lie below it is there as before.
pub proof fn lemma_rmdir_removes(v: FsView, parent: u64, name: Seq<char>)
    requires
        v.wf(),
        rmdir_error(v, parent, name) is None,
    ensures
        ({
            let ino = v.child(parent, name)->0;
            let w = FsView { nodes: pruned(v.nodes, parent, name, ino), next_ino: v.next_ino };
            &&& w.wf()
            &&& w.child(parent, name) is None
            &&& !w.nodes.contains_key(ino)
            &&& forall|id: u64| under(v.nodes, ino, id) ==> !w.nodes.contains_key(id)
            &&& forall|id: u64|
                v.nodes.contains_key(id) && !under(v.nodes, ino, id) ==> #[trigger] w.nodes.contains_key(
                    id,
                )
            &&& forall|id: u64|
                v.nodes.contains_key(id) && !under(v.nodes, ino, id) && id != parent
                    ==> #[trigger] w.nodes[id] == v.nodes[id]
        }),
{
    let ino = v.child(parent, name)->0;
    let s = v.nodes[parent].entries();
    assert(v.nodes[parent].wf());
    if v.nodes[parent].children is None {
        assert(s =~= Seq::<EntryView>::empty());
    }
    lemma_pruned_wf(v.nodes, parent, name, ino);
    lemma_without(s, name);
}

/// After a rename the new name resolves to the entry that the old name
/// stood for, the old name resolves no longer unless it is the new one,
/// and the entry names its new directory as its parent.
pub proof fn lemma_rename_moves(
    v: FsView,
    parent: u64,
    name: Seq<char>,
    newparent: u64,
    newname: Seq<char>,
    flags: u32,
)
    requires
        v.wf(),
        rename_error(v, parent, name, newparent, newname, flags) is None,
    ensures
        ({
            let ino = v.child(parent, name)->0;
            let w = FsView {
                nodes: renamed(v.nodes, parent, name, newparent, newname),
                next_ino: v.next_ino,
            };
            &&& w.wf()
            &&& w.child(newparent, newname) == Some(ino)
            &&& (parent != newparent || name != newname) ==> w.child(parent, name) is None
            &&& w.nodes.contains_key(ino)
            &&& w.nodes[ino].parent == newparent
        }),
{
    let t = v.nodes;
    let ino = v.child(parent, name)->0;
    let w = renamed(t, parent, name, newparent, newname);
    lemma_rename_ready(t, parent, name, newparent, newname);
    lemma_renamed_wf(t, parent, name, newparent, newname);
    let s = t[parent].entries();
    let sn = t[newparent].entries();
    assert(sorted(s)) by {
        if t[parent].children is None {
            assert(s =~= Seq::<EntryView>::empty());
        }
    }
    lemma_find_contains(s, name, ino);
    assert forall|id: u64| #[trigger] w.contains_key(id) implies id < v.next_ino by {
        assert(t.contains_key(id));
    }
    match find(sn, newname) {
        Some(other) => {
            lemma_find_contains(sn, newname, other);
            if other == ino {
                assert(parent == newparent);
                assert(name == newname);
            } else {
                let u = unlinked(t, newparent, newname, other);
                lemma_without(sn, newname);
                assert(u[newparent].entries() == without(sn, newname));
                lemma_moved_names(u, parent, name, newparent, newname, ino);
            }
        },
        None => {
            lemma_moved_names(t, parent, name, newparent, newname, ino);
        },
    }
}

/// What the two names resolve to after an entry was moved.
proof fn lemma_moved_names(
    t: Map<u64, NodeView>,
    parent: u64,
    name: Seq<char>,
    newparent: u64,
    newname: Seq<char>,
    ino: u64,
)
    requires
        t.contains_key(parent),
        t.contains_key(newparent),
        t.contains_key(ino),
        ino != parent,
        ino != newparent,
        sorted(t[parent].entries()),
        sorted(t[newparent].entries()),
    ensures
        ({
            let m = moved(t, parent, name, newparent, newname, ino);
            &&& find(m[newparent].entries(), newname) == Some(ino)
            &&& (parent != newparent || name != newname) ==> find(m[parent].entries(), name) is None
            &&& m.contains_key(ino)
            &&& m[ino].parent == newparent
        }),
{
    let a = t.insert(parent, without_entry(t[parent], name));
    lemma_without(t[parent].entries(), name);
    assert(a[parent].entries() == without(t[parent].entries(), name));
    lemma_put(a[newparent].entries(), newname, ino);
}

} // verus!
