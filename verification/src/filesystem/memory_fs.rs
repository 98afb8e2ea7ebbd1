//! The filesystem: the inode table, the id counter, and the operations.

use std::collections::HashMap;
use vstd::pervasive::unreached;
use vstd::prelude::*;
use vstd::slice::{slice_subrange, slice_to_vec};
use vstd::std_specs::hash::*;
use super::attr::{
    attributes, create_reply, entry_reply, node_attr, synthesize, AttrReply, CreateReply,
    EntryReply, TTL_SECS,
};
use super::error::FsError;
use super::inter::directory::{lemma_find_contains, lemma_without, EntryView};
use super::inter::node::{empty_directory, empty_file, FileKind, Node, NodeView};
use super::moving::{
    lemma_chain_add, lemma_rename_ready, lemma_renamed_wf, moved, renamed, with_parent,
};
use super::outcome::{
    child_item, create_error, created, dir_error, dot_items, empty_node, file_error, item_views,
    listing, read_range, rename_error, rmdir_error, unlink_error, write_error, written, DirItem,
    ItemView, RENAME_NOREPLACE,
};
use super::statfs::{statfs_of, statistics, StatfsReply};
use super::subtree::{
    lemma_chain_outside, lemma_closed_upwards, lemma_pruned_wf, lemma_seeded_wf, lemma_under_child,
    lemma_under_inside, pruned,
};
use super::tree::{
    fresh_table, lemma_children_count, lemma_content_wf, lemma_linked_wf, lemma_unlinked_wf,
    nth_parent, one_past_largest, ranked, seeded, subtree, table_wf, under, unlinked, with_content,
    with_entry, without_entry, FsView, NO_PARENT, ROOT_INO,
};

verus! {

broadcast use vstd::std_specs::hash::group_hash_axioms;

/// What the nodes of a table stand for, id by id.
pub open spec fn node_views(files: Map<u64, Node>) -> Map<u64, NodeView> {
    files.map_values(|n: Node| n@)
}

/// An in-memory filesystem. Every operation takes the whole table for the
/// time it runs.
pub struct MemoryFS {
    files: HashMap<u64, Node>,
    next_ino: u64,
}

impl View for MemoryFS {
    type V = FsView;

    closed spec fn view(&self) -> FsView {
        FsView { nodes: node_views(self.files@), next_ino: self.next_ino }
    }
}

impl MemoryFS {
    /// The table is one tree under the root, and the counter is past every id.
    pub open spec fn wf(&self) -> bool {
        self@.wf()
    }

    /// A filesystem built on the table `files`: it holds what `files` held,
    /// but for a new, empty root directory under the root's id, and its
    /// counter stands one past the largest id. It is well formed exactly
    /// where `files` held nothing under another id than the root's: no other
    /// node hangs under the new root.
    pub fn new(files: HashMap<u64, Node>) -> (fs: MemoryFS)
        requires
            !files@.contains_key(u64::MAX),
        ensures
            fs@.nodes == seeded(node_views(files@)),
            one_past_largest(fs@.nodes, fs@.next_ino),
            fs@.next_ino > ROOT_INO,
            fs.wf() <==> files@.dom().subset_of(set![ROOT_INO]),
    {
        let ghost seed = files@;
        let mut files = files;
        files.insert(ROOT_INO, Node::new_directory(NO_PARENT));
        let largest = Self::largest_id(&files);
        let fs = MemoryFS { files, next_ino: largest + 1 };
        proof {
            assert(fs@.nodes =~= seeded(node_views(seed)));
            assert(node_views(seed).dom() =~= seed.dom());
            lemma_seeded_wf(node_views(seed));
        }
        fs
    }

    /// The largest id of the table, which holds the root.
    fn largest_id(files: &HashMap<u64, Node>) -> (m: u64)
        requires
            files@.contains_key(ROOT_INO),
        ensures
            files@.contains_key(m),
            forall|k: u64| files@.contains_key(k) ==> k <= m,
    {
        let mut m: u64 = ROOT_INO;
        for k in it: files.keys()
            invariant
                files@.contains_key(m),
                it.seq().unref().to_set() == files@.dom(),
                forall|i: int| 0 <= i < it.index() ==> *it.seq()[i] <= m,
        {
            assert(it.seq().unref()[it.index()] == *k);
            assert(it.seq().unref().to_set().contains(*k));
            if *k > m {
                m = *k;
            }
        }
        m
    }

    /// The id that the next creation hands out.
    pub fn next_ino(&self) -> (n: u64)
        ensures
            n == self@.next_ino,
    {
        self.next_ino
    }

    /// The node stored under `id`.
    pub fn node(&self, id: u64) -> (r: Option<&Node>)
        ensures
            match r {
                Some(n) => self@.nodes.contains_key(id) && self@.nodes[id] == n@,
                None => !self@.nodes.contains_key(id),
            },
    {
        self.files.get(&id)
    }

    /// The id that `name` maps to under `parent`.
    fn child(&self, parent: u64, name: &str) -> (r: Option<u64>)
        requires
            self.wf(),
        ensures
            r == self@.child(parent, name@),
            r matches Some(id) ==> self@.nodes.contains_key(id) && id != ROOT_INO
                && self@.nodes[id].parent == parent && self@.nodes[parent].is_dir(),
    {
        match self.node(parent) {
            None => None,
            Some(p) => match &p.children {
                None => {
                    assert(p@.entries() =~= Seq::<EntryView>::empty());
                    None
                },
                Some(dir) => {
                    assert(p@.wf());
                    let r = dir.get(name);
                    proof {
                        if let Some(id) = r {
                            lemma_find_contains(p@.entries(), name@, id);
                        }
                    }
                    r
                },
            },
        }
    }

    /// Resolves `name` inside the directory `parent`.
    pub fn lookup(&self, parent: u64, name: &str) -> (r: Result<EntryReply, FsError>)
        requires
            self.wf(),
        ensures
            match self@.child(parent, name@) {
                Some(id) => r == Ok::<EntryReply, FsError>(entry_reply(id, self@.nodes[id])),
                None => r == Err::<EntryReply, FsError>(FsError::NotFound),
            },
    {
        match self.child(parent, name) {
            None => Err(FsError::NotFound),
            Some(id) => match self.node(id) {
                None => unreached(),
                Some(n) => Ok(EntryReply { ttl: TTL_SECS, attr: attributes(id, n), generation: 0 }),
            },
        }
    }

    /// Hands out the next id, if one is left, and moves the counter on.
    fn allocate_id(&mut self) -> (r: Option<u64>)
        ensures
            final(self)@.nodes == old(self)@.nodes,
            match r {
                Some(ino) => ino == old(self)@.next_ino && final(self)@.next_ino == ino + 1,
                None => old(self)@.next_ino == u64::MAX && final(self)@ == old(self)@,
            },
    {
        if self.next_ino == u64::MAX {
            None
        } else {
            let ino = self.next_ino;
            self.next_ino = ino + 1;
            Some(ino)
        }
    }

    /// Creates an empty node of the given kind as `name` under `parent`, and
    /// returns its id.
    fn make(&mut self, parent: u64, name: &str, kind: FileKind) -> (r: Result<u64, FsError>)
        requires
            old(self).wf(),
        ensures
            final(self).wf(),
            match create_error(old(self)@, parent, name@) {
                Some(e) => r == Err::<u64, FsError>(e) && final(self)@ == old(self)@,
                None => r == Ok::<u64, FsError>(old(self)@.next_ino) && final(self)@ == created(
                    old(self)@,
                    parent,
                    name@,
                    kind,
                ),
            },
    {
        match self.node(parent) {
            None => {
                return Err(FsError::NotFound);
            },
            Some(p) => match &p.children {
                None => {
                    return Err(FsError::InvalidArgument);
                },
                Some(dir) => {
                    assert(p@.wf());
                    if dir.contains(name) {
                        return Err(FsError::AlreadyExists);
                    }
                },
            },
        }
        let ghost before = self@;
        let ino = match self.allocate_id() {
            None => {
                return Err(FsError::InvalidArgument);
            },
            Some(ino) => ino,
        };
        let node = match kind {
            FileKind::Directory => Node::new_directory(parent),
            FileKind::RegularFile => Node::new_file(parent),
        };
        self.files.insert(ino, node);
        assert(self@.nodes =~= before.nodes.insert(ino, empty_node(kind, parent)));
        self.attach(parent, name, ino);
        proof {
            lemma_linked_wf(before.nodes, parent, name@, ino, empty_node(kind, parent));
        }
        Ok(ino)
    }

    /// Creates the directory `name` under `parent`.
    pub fn mkdir(&mut self, parent: u64, name: &str) -> (r: Result<EntryReply, FsError>)
        requires
            old(self).wf(),
        ensures
            final(self).wf(),
            match create_error(old(self)@, parent, name@) {
                Some(e) => r == Err::<EntryReply, FsError>(e) && final(self)@ == old(self)@,
                None => r == Ok::<EntryReply, FsError>(
                    entry_reply(old(self)@.next_ino, empty_directory(parent)),
                ) && final(self)@ == created(old(self)@, parent, name@, FileKind::Directory),
            },
    {
        match self.make(parent, name, FileKind::Directory) {
            Err(e) => Err(e),
            Ok(ino) => Ok(
                EntryReply {
                    ttl: TTL_SECS,
                    attr: synthesize(ino, 0, FileKind::Directory),
                    generation: 0,
                },
            ),
        }
    }

    /// Creates the empty file `name` under `parent`.
    pub fn create(&mut self, parent: u64, name: &str) -> (r: Result<CreateReply, FsError>)
        requires
            old(self).wf(),
        ensures
            final(self).wf(),
            match create_error(old(self)@, parent, name@) {
                Some(e) => r == Err::<CreateReply, FsError>(e) && final(self)@ == old(self)@,
                None => r == Ok::<CreateReply, FsError>(
                    create_reply(old(self)@.next_ino, empty_file(parent)),
                ) && final(self)@ == created(old(self)@, parent, name@, FileKind::RegularFile),
            },
    {
        match self.make(parent, name, FileKind::RegularFile) {
            Err(e) => Err(e),
            Ok(ino) => Ok(
                CreateReply {
                    ttl: TTL_SECS,
                    attr: synthesize(ino, 0, FileKind::RegularFile),
                    generation: 0,
                    fh: ino,
                    flags: 0,
                },
            ),
        }
    }

    /// Lists the directory `ino` from `offset` on.
    pub fn readdir(&self, ino: u64, offset: u64) -> (r: Result<Vec<DirItem>, FsError>)
        requires
            self.wf(),
        ensures
            match dir_error(self@, ino) {
                Some(e) => r is Err && r->Err_0 == e,
                None => r is Ok && item_views(r->Ok_0@) == listing(self@, ino, offset),
            },
    {
        let node = match self.node(ino) {
            None => {
                return Err(FsError::NotFound);
            },
            Some(n) => n,
        };
        assert(node@.wf());
        let dir = match &node.children {
            None => {
                return Err(FsError::InvalidArgument);
            },
            Some(d) => d,
        };
        proof {
            lemma_children_count(self@.nodes, ino);
            assert(self@.nodes.dom() =~= self.files@.dom());
            assert(self.files@.len() == self.files.len());
        }
        let mut out: Vec<DirItem> = Vec::new();
        if offset == 0 {
            out.push(
                DirItem { ino, index: 1, kind: FileKind::Directory, name: ".".to_owned() },
            );
            out.push(
                DirItem {
                    ino: node.parent,
                    index: 2,
                    kind: FileKind::Directory,
                    name: "..".to_owned(),
                },
            );
            assert(item_views(out@) =~= dot_items(self@, ino));
        }
        let len = dir.len();
        let from: usize = if offset >= len as u64 {
            len
        } else {
            offset as usize
        };
        let ghost head = item_views(out@);
        let mut i: usize = from;
        while i < len
            invariant
                self.wf(),
                self@.nodes.contains_key(ino),
                self@.nodes[ino].entries() == dir@,
                len == dir@.len(),
                len + 1 <= usize::MAX,
                from <= i <= len,
                item_views(out@) == head + Seq::new(
                    (i - from) as nat,
                    |k: int| child_item(self@, ino, from + k),
                ),
            decreases len - i,
        {
            let e = dir.entry(i);
            assert(dir@.contains(dir@[i as int]));
            let kind = match self.node(e.ino) {
                Some(c) => c.data.kind,
                None => unreached(),
            };
            let ghost was = item_views(out@);
            out.push(DirItem { ino: e.ino, index: i as u64 + 2, kind, name: e.name.clone() });
            assert(item_views(out@) =~= was.push(child_item(self@, ino, i as int)));
            i += 1;
            assert(item_views(out@) =~= head + Seq::new(
                (i - from) as nat,
                |k: int| child_item(self@, ino, from + k),
            ));
        }
        proof {
            if offset == 0 {
                assert(item_views(out@) =~= listing(self@, ino, offset));
            } else {
                assert(head =~= Seq::<ItemView>::empty());
                assert(item_views(out@) =~= listing(self@, ino, offset));
            }
        }
        Ok(out)
    }

    /// Reads up to `size` bytes of the file `ino`, from `offset` on.
    pub fn read(&self, ino: u64, offset: u64, size: u32) -> (r: Result<Vec<u8>, FsError>)
        requires
            self.wf(),
        ensures
            match file_error(self@, ino) {
                Some(e) => r == Err::<Vec<u8>, FsError>(e),
                None => r is Ok && r->Ok_0@ == read_range(self@.nodes[ino].content->0, offset, size),
            },
    {
        match self.node(ino) {
            None => Err(FsError::NotFound),
            Some(n) => {
                assert(n@.wf());
                match &n.data.content {
                    None => Err(FsError::InvalidArgument),
                    Some(content) => {
                        let len = content.len();
                        if offset >= len as u64 {
                            Ok(Vec::new())
                        } else {
                            let start = offset as usize;
                            let rest = len - start;
                            let take = if (size as usize) < rest {
                                size as usize
                            } else {
                                rest
                            };
                            Ok(slice_to_vec(slice_subrange(content.as_slice(), start, start + take)))
                        }
                    },
                }
            },
        }
    }

    /// Writes `data` into the file `ino` at `offset`, and returns how many
    /// bytes were written. The file ends where the write ends.
    pub fn write(&mut self, ino: u64, offset: u64, data: &[u8]) -> (r: Result<usize, FsError>)
        requires
            old(self).wf(),
        ensures
            final(self).wf(),
            match write_error(old(self)@, ino, offset, data@.len()) {
                Some(e) => r == Err::<usize, FsError>(e) && final(self)@ == old(self)@,
                None => {
                    &&& r == Ok::<usize, FsError>(data@.len() as usize)
                    &&& final(self)@.next_ino == old(self)@.next_ino
                    &&& final(self)@.nodes == old(self)@.nodes.insert(
                        ino,
                        with_content(
                            old(self)@.nodes[ino],
                            written(old(self)@.nodes[ino].content->0, offset, data@),
                        ),
                    )
                },
            },
    {
        match self.node(ino) {
            None => {
                return Err(FsError::NotFound);
            },
            Some(n) => {
                assert(n@.wf());
                if n.data.content.is_none() {
                    return Err(FsError::InvalidArgument);
                }
            },
        }
        if offset > usize::MAX as u64 || data.len() > usize::MAX - offset as usize {
            return Err(FsError::InvalidArgument);
        }
        let start = offset as usize;
        let ghost before = self@;
        let ghost was = before.nodes[ino].content->0;
        let removed = self.files.remove(&ino);
        let mut node = removed.unwrap();
        assert(node@ == before.nodes[ino]);
        match &mut node.data.content {
            None => {},
            Some(buf) => {
                buf.truncate(start);
                while buf.len() < start
                    invariant
                        buf@.len() <= start,
                        was.len() <= buf@.len() || buf@.len() == start,
                        forall|i: int| 0 <= i < buf@.len() ==> buf@[i] == if i < was.len() {
                            was[i]
                        } else {
                            0u8
                        },
                    decreases start - buf@.len(),
                {
                    buf.push(0);
                }
                let mut k: usize = 0;
                while k < data.len()
                    invariant
                        k <= data@.len(),
                        start + data@.len() <= usize::MAX,
                        buf@.len() == start + k,
                        forall|i: int| 0 <= i < start ==> buf@[i] == if i < was.len() {
                            was[i]
                        } else {
                            0u8
                        },
                        forall|i: int| 0 <= i < k ==> buf@[start + i] == data@[i],
                    decreases data@.len() - k,
                {
                    buf.push(data[k]);
                    k += 1;
                }
                assert(buf@ =~= written(was, offset, data@));
            },
        }
        node.data.size = (start + data.len()) as u64;
        assert(node@ == with_content(before.nodes[ino], written(was, offset, data@)));
        self.files.insert(ino, node);
        proof {
            assert(self@.nodes =~= before.nodes.insert(
                ino,
                with_content(before.nodes[ino], written(was, offset, data@)),
            ));
            lemma_content_wf(before.nodes, ino, written(was, offset, data@));
        }
        Ok(data.len())
    }

    /// Removes the file `name` from the directory `parent` and from the
    /// table.
    pub fn unlink(&mut self, parent: u64, name: &str) -> (r: Result<(), FsError>)
        requires
            old(self).wf(),
        ensures
            final(self).wf(),
            match unlink_error(old(self)@, parent, name@) {
                Some(e) => r == Err::<(), FsError>(e) && final(self)@ == old(self)@,
                None => {
                    &&& r is Ok
                    &&& final(self)@.next_ino == old(self)@.next_ino
                    &&& final(self)@.nodes == unlinked(
                        old(self)@.nodes,
                        parent,
                        name@,
                        old(self)@.child(parent, name@)->0,
                    )
                    &&& final(self)@.child(parent, name@) is None
                    &&& !final(self)@.nodes.contains_key(old(self)@.child(parent, name@)->0)
                },
            },
    {
        let ino = match self.child(parent, name) {
            None => {
                return Err(FsError::NotFound);
            },
            Some(ino) => ino,
        };
        match self.node(ino) {
            None => unreached(),
            Some(n) => {
                assert(n@.wf());
                if n.children.is_some() {
                    return Err(FsError::InvalidArgument);
                }
                assert(n@.entries() =~= Seq::<EntryView>::empty());
            },
        }
        let ghost before = self@;
        proof {
            lemma_unlinked_wf(before.nodes, parent, name@, ino);
            assert(before.nodes[parent].wf());
            lemma_without(before.nodes[parent].entries(), name@);
        }
        self.drop_entry(parent, name, ino);
        Ok(())
    }

    /// Removes `ino` and everything below it from the table.
    fn remove_subtree(&mut self, ino: u64)
        requires
            old(self).wf(),
            old(self)@.nodes.contains_key(ino),
        ensures
            final(self)@.next_ino == old(self)@.next_ino,
            final(self)@.nodes == old(self)@.nodes.remove_keys(subtree(old(self)@.nodes, ino)),
    {
        let ghost t = self@.nodes;
        let mut stack: Vec<u64> = Vec::new();
        stack.push(ino);
        proof {
            assert(nth_parent(t, ino, 0) == ino);
            assert(stack@.contains(ino)) by {
                assert(stack@[0] == ino);
            }
            assert forall|y: u64| #[trigger]
                self@.nodes.contains_key(y) && under(t, ino, y) implies stack@.contains(y) || (y
                != ino && self@.nodes.contains_key(t[y].parent)) by {
                if y != ino {
                    lemma_under_inside(t, ino, y);
                }
            }
        }
        while stack.len() > 0
            invariant
                table_wf(t),
                self@.next_ino == old(self)@.next_ino,
                forall|j: int|
                    0 <= j < stack@.len() ==> t.contains_key(#[trigger] stack@[j]) && under(
                        t,
                        ino,
                        stack@[j],
                    ),
                forall|id: u64| #[trigger]
                    self@.nodes.contains_key(id) ==> t.contains_key(id) && self@.nodes[id] == t[id],
                forall|id: u64|
                    t.contains_key(id) && !(#[trigger] self@.nodes.contains_key(id)) ==> under(
                        t,
                        ino,
                        id,
                    ),
                forall|y: u64| #[trigger]
                    self@.nodes.contains_key(y) && under(t, ino, y) ==> stack@.contains(y) || (y
                        != ino && self@.nodes.contains_key(t[y].parent)),
            decreases self.files@.dom().len(), stack@.len(),
        {
            let ghost cur = self@.nodes;
            let ghost cur_files = self.files@;
            let ghost old_stack = stack@;
            let top = stack.pop().unwrap();
            let ghost base = stack@;
            assert(top == old_stack[old_stack.len() - 1]);
            assert(forall|j: int| 0 <= j < base.len() ==> base[j] == old_stack[j]);
            let removed = self.files.remove(&top);
            match removed {
                None => {
                    assert(self@.nodes =~= cur);
                    proof {
                        assert forall|y: u64| #[trigger]
                            self@.nodes.contains_key(y) && under(t, ino, y) implies base.contains(y)
                            || (y != ino && self@.nodes.contains_key(t[y].parent)) by {
                            if old_stack.contains(y) {
                                let j = choose|j: int| 0 <= j < old_stack.len() && old_stack[j] == y;
                                assert(base[j] == y);
                            }
                        }
                    }
                },
                Some(node) => {
                    assert(cur.contains_key(top));
                    assert(node@ == t[top]);
                    assert(self@.nodes =~= cur.remove(top));
                    proof {
                        assert(self.files@.dom() =~= cur_files.dom().remove(top));
                        vstd::set::axiom_set_remove_len(cur_files.dom(), top);
                    }
                    match &node.children {
                        None => {
                            assert(t[top].entries() =~= Seq::<EntryView>::empty());
                        },
                        Some(dir) => {
                            let n = dir.len();
                            let mut i: usize = 0;
                            while i < n
                                invariant
                                    i <= n,
                                    n == dir@.len(),
                                    stack@.len() == base.len() + i,
                                    forall|j: int| 0 <= j < base.len() ==> stack@[j] == base[j],
                                    forall|k: int|
                                        0 <= k < i ==> #[trigger] stack@[base.len() + k]
                                            == dir@[k].ino,
                                decreases n - i,
                            {
                                stack.push(dir.entry(i).ino);
                                i += 1;
                            }
                        },
                    }
                    proof {
                        let kids = t[top].entries();
                        assert(stack@.len() == base.len() + kids.len());
                        assert forall|j: int| 0 <= j < stack@.len() implies t.contains_key(
                            #[trigger] stack@[j],
                        ) && under(t, ino, stack@[j]) by {
                            if j < base.len() {
                                assert(stack@[j] == old_stack[j]);
                            } else {
                                let k = j - base.len();
                                assert(stack@[base.len() + k] == kids[k].ino);
                                assert(kids.contains(kids[k]));
                                lemma_under_child(t, ino, kids[k].ino);
                            }
                        }
                        assert forall|y: u64| #[trigger]
                            self@.nodes.contains_key(y) && under(t, ino, y) implies stack@.contains(y)
                            || (y != ino && self@.nodes.contains_key(t[y].parent)) by {
                            assert(cur.contains_key(y));
                            if old_stack.contains(y) {
                                let j = choose|j: int| 0 <= j < old_stack.len() && old_stack[j] == y;
                                assert(stack@[j] == y);
                            } else if t[y].parent == top {
                                let x = choose|x: EntryView| #[trigger]
                                    kids.contains(x) && x.ino == y;
                                let k = choose|k: int| 0 <= k < kids.len() && kids[k] == x;
                                assert(stack@[base.len() + k] == y);
                            }
                        }
                    }
                },
            }
        }
        proof {
            let left = self@.nodes.dom();
            assert forall|id: u64| self@.nodes.contains_key(id) implies !under(t, ino, id) by {
                if under(t, ino, id) {
                    let n = choose|n: nat| nth_parent(t, id, n) == ino;
                    assert forall|y: u64| #[trigger]
                        left.contains(y) && under(t, ino, y) implies y != ino && t.contains_key(y)
                        && left.contains(t[y].parent) by {
                        assert(self@.nodes.contains_key(y));
                        assert(!stack@.contains(y));
                    }
                    lemma_closed_upwards(t, left, ino, id, n);
                }
            }
            assert(self@.nodes =~= t.remove_keys(subtree(t, ino)));
        }
    }

    /// Removes the directory `name` from the directory `parent`, with
    /// everything below it.
    pub fn rmdir(&mut self, parent: u64, name: &str) -> (r: Result<(), FsError>)
        requires
            old(self).wf(),
        ensures
            final(self).wf(),
            match rmdir_error(old(self)@, parent, name@) {
                Some(e) => r == Err::<(), FsError>(e) && final(self)@ == old(self)@,
                None => {
                    &&& r is Ok
                    &&& final(self)@.next_ino == old(self)@.next_ino
                    &&& final(self)@.nodes == pruned(
                        old(self)@.nodes,
                        parent,
                        name@,
                        old(self)@.child(parent, name@)->0,
                    )
                },
            },
    {
        let ino = match self.child(parent, name) {
            None => {
                return Err(FsError::NotFound);
            },
            Some(ino) => ino,
        };
        match self.node(ino) {
            None => unreached(),
            Some(n) => {
                assert(n@.wf());
                if n.children.is_none() {
                    return Err(FsError::InvalidArgument);
                }
            },
        }
        let ghost before = self@;
        proof {
            lemma_pruned_wf(before.nodes, parent, name@, ino);
            assert(before.nodes[parent].wf());
        }
        self.remove_subtree(ino);
        self.detach(parent, name);
        Ok(())
    }

    /// Whether `id` is `anc` or lies below it.
    fn is_under(&self, anc: u64, id: u64) -> (r: bool)
        requires
            self.wf(),
            self@.nodes.contains_key(anc),
            self@.nodes.contains_key(id),
        ensures
            r == under(self@.nodes, anc, id),
    {
        let ghost t = self@.nodes;
        let ghost rk = choose|r: Map<u64, nat>| ranked(t, r);
        let ghost mut n: nat = 0;
        let mut cur = id;
        loop
            invariant
                self.wf(),
                t == self@.nodes,
                ranked(t, rk),
                t.contains_key(anc),
                t.contains_key(cur),
                nth_parent(t, id, n) == cur,
                forall|m: nat| m < n ==> nth_parent(t, id, m) != anc,
            decreases rk[cur],
        {
            if cur == anc {
                return true;
            }
            if cur == ROOT_INO {
                proof {
                    assert forall|m: nat| nth_parent(t, id, m) != anc by {
                        if m > n {
                            let k = (m - n) as nat;
                            lemma_chain_add(t, id, n, k);
                            lemma_chain_outside(t, NO_PARENT, (k - 1) as nat);
                        }
                    }
                }
                return false;
            }
            let up = match self.node(cur) {
                Some(c) => c.parent,
                None => unreached(),
            };
            proof {
                lemma_chain_add(t, id, n, 1);
                assert(nth_parent(t, cur, 1) == nth_parent(t, up, 0));
                n = n + 1;
            }
            cur = up;
        }
    }

    /// Maps `name` to `ino` in the directory `parent`.
    fn attach(&mut self, parent: u64, name: &str, ino: u64)
        requires
            old(self)@.nodes.contains_key(parent),
            old(self)@.nodes[parent].is_dir(),
            old(self)@.nodes[parent].wf(),
        ensures
            final(self)@.next_ino == old(self)@.next_ino,
            final(self)@.nodes == old(self)@.nodes.insert(
                parent,
                with_entry(old(self)@.nodes[parent], name@, ino),
            ),
    {
        let ghost before = self@;
        let removed = self.files.remove(&parent);
        let mut p = removed.unwrap();
        assert(p@ == before.nodes[parent]);
        match &mut p.children {
            None => {},
            Some(dir) => {
                dir.insert(name.to_owned(), ino);
            },
        }
        assert(p@ == with_entry(before.nodes[parent], name@, ino));
        self.files.insert(parent, p);
        assert(self@.nodes =~= before.nodes.insert(
            parent,
            with_entry(before.nodes[parent], name@, ino),
        ));
    }

    /// Stores `parent` as the parent of `ino`.
    fn set_parent(&mut self, ino: u64, parent: u64)
        requires
            old(self)@.nodes.contains_key(ino),
        ensures
            final(self)@.next_ino == old(self)@.next_ino,
            final(self)@.nodes == old(self)@.nodes.insert(
                ino,
                with_parent(old(self)@.nodes[ino], parent),
            ),
    {
        let ghost before = self@;
        let removed = self.files.remove(&ino);
        let mut node = removed.unwrap();
        assert(node@ == before.nodes[ino]);
        node.parent = parent;
        self.files.insert(ino, node);
        assert(self@.nodes =~= before.nodes.insert(ino, with_parent(before.nodes[ino], parent)));
    }

    /// Drops the child `name` of `parent`, which is `ino`, from the directory
    /// and from the table.
    fn drop_entry(&mut self, parent: u64, name: &str, ino: u64)
        requires
            old(self)@.nodes.contains_key(parent),
            old(self)@.nodes[parent].is_dir(),
            old(self)@.nodes[parent].wf(),
            ino != parent,
        ensures
            final(self)@.next_ino == old(self)@.next_ino,
            final(self)@.nodes == unlinked(old(self)@.nodes, parent, name@, ino),
    {
        let ghost before = self@;
        self.detach(parent, name);
        let ghost mid = self@;
        self.files.remove(&ino);
        assert(self@.nodes =~= mid.nodes.remove(ino));
        assert(mid.nodes.remove(ino) =~= unlinked(before.nodes, parent, name@, ino));
    }

    /// Makes the child `name` of `parent`, which is `ino`, the child
    /// `newname` of `newparent`.
    fn move_entry(&mut self, parent: u64, name: &str, newparent: u64, newname: &str, ino: u64)
        requires
            old(self)@.nodes.contains_key(parent),
            old(self)@.nodes[parent].is_dir(),
            old(self)@.nodes[parent].wf(),
            old(self)@.nodes.contains_key(newparent),
            old(self)@.nodes[newparent].is_dir(),
            old(self)@.nodes[newparent].wf(),
            old(self)@.nodes.contains_key(ino),
        ensures
            final(self)@.next_ino == old(self)@.next_ino,
            final(self)@.nodes == moved(old(self)@.nodes, parent, name@, newparent, newname@, ino),
    {
        proof {
            lemma_without(self@.nodes[parent].entries(), name@);
        }
        self.detach(parent, name);
        self.attach(newparent, newname, ino);
        self.set_parent(ino, newparent);
    }

    /// Makes the child `name` of `parent` the child `newname` of
    /// `newparent`. An entry that `newname` stood for leaves the table,
    /// unless `flags` forbid that or it is a directory with children.
    pub fn rename(
        &mut self,
        parent: u64,
        name: &str,
        newparent: u64,
        newname: &str,
        flags: u32,
    ) -> (r: Result<(), FsError>)
        requires
            old(self).wf(),
        ensures
            final(self).wf(),
            match rename_error(old(self)@, parent, name@, newparent, newname@, flags) {
                Some(e) => r == Err::<(), FsError>(e) && final(self)@ == old(self)@,
                None => {
                    &&& r is Ok
                    &&& final(self)@.next_ino == old(self)@.next_ino
                    &&& final(self)@.nodes == renamed(
                        old(self)@.nodes,
                        parent,
                        name@,
                        newparent,
                        newname@,
                    )
                },
            },
    {
        let ghost before = self@;
        let ghost t = before.nodes;
        let ino = match self.child(parent, name) {
            None => {
                return Err(FsError::NotFound);
            },
            Some(ino) => ino,
        };
        let other = match self.target(newparent, newname) {
            Err(e) => {
                return Err(e);
            },
            Ok(other) => other,
        };
        if self.is_under(ino, newparent) {
            return Err(FsError::InvalidArgument);
        }
        let replaces = match other {
            None => false,
            Some(o) => {
                if flags & RENAME_NOREPLACE != 0 {
                    return Err(FsError::AlreadyExists);
                }
                if o == ino {
                    return Ok(());
                }
                if self.has_children(o) {
                    return Err(FsError::AlreadyExists);
                }
                true
            },
        };
        proof {
            lemma_rename_ready(t, parent, name@, newparent, newname@);
            lemma_renamed_wf(t, parent, name@, newparent, newname@);
        }
        if replaces {
            let o = other.unwrap();
            self.drop_entry(newparent, newname, o);
            proof {
                lemma_without(t[newparent].entries(), newname@);
            }
        }
        self.move_entry(parent, name, newparent, newname, ino);
        proof {
            let done = renamed(t, parent, name@, newparent, newname@);
            assert(self@.nodes == done);
            assert forall|id: u64| #[trigger] done.contains_key(id) implies id < before.next_ino by {
                assert(t.contains_key(id));
            }
        }
        Ok(())
    }

    /// The id that `newname` stands for in the directory `newparent`, for a
    /// rename that is to put an entry there.
    fn target(&self, newparent: u64, newname: &str) -> (r: Result<Option<u64>, FsError>)
        requires
            self.wf(),
        ensures
            match dir_error(self@, newparent) {
                Some(e) => r == Err::<Option<u64>, FsError>(e),
                None => r == Ok::<Option<u64>, FsError>(self@.child(newparent, newname@)),
            },
            r matches Ok(Some(other)) ==> self@.nodes.contains_key(other),
    {
        match self.node(newparent) {
            None => Err(FsError::NotFound),
            Some(np) => match &np.children {
                None => Err(FsError::InvalidArgument),
                Some(dir) => {
                    assert(np@.wf());
                    let other = dir.get(newname);
                    proof {
                        if let Some(o) = other {
                            lemma_find_contains(np@.entries(), newname@, o);
                        }
                    }
                    Ok(other)
                },
            },
        }
    }

    /// Whether `ino` is a directory with children.
    fn has_children(&self, ino: u64) -> (r: bool)
        requires
            self.wf(),
        ensures
            r == (self@.nodes.contains_key(ino) && self@.nodes[ino].entries().len() > 0),
    {
        match self.node(ino) {
            None => false,
            Some(n) => match &n.children {
                None => {
                    assert(n@.entries() =~= Seq::<EntryView>::empty());
                    false
                },
                Some(d) => d.len() > 0,
            },
        }
    }

    /// Drops `name` from the directory `parent`.
    fn detach(&mut self, parent: u64, name: &str)
        requires
            old(self)@.nodes.contains_key(parent),
            old(self)@.nodes[parent].is_dir(),
            old(self)@.nodes[parent].wf(),
        ensures
            final(self)@.next_ino == old(self)@.next_ino,
            final(self)@.nodes == old(self)@.nodes.insert(
                parent,
                without_entry(old(self)@.nodes[parent], name@),
            ),
    {
        let ghost before = self@;
        let removed = self.files.remove(&parent);
        let mut p = removed.unwrap();
        assert(p@ == before.nodes[parent]);
        match &mut p.children {
            None => {},
            Some(dir) => {
                dir.remove(name);
            },
        }
        assert(p@ == without_entry(before.nodes[parent], name@));
        self.files.insert(parent, p);
        assert(self@.nodes =~= before.nodes.insert(parent, without_entry(before.nodes[parent], name@)));
    }

    /// The figures to report for the filesystem, on a host with
    /// `total_bytes` of memory of which `available_bytes` are available.
    pub fn statfs(&self, total_bytes: u64, available_bytes: u64) -> (r: StatfsReply)
        ensures
            r == statfs_of(total_bytes, available_bytes, self@.next_ino),
    {
        statistics(total_bytes, available_bytes, self.next_ino)
    }

    /// The metadata of the entry `ino`.
    pub fn getattr(&self, ino: u64) -> (r: Result<AttrReply, FsError>)
        ensures
            match r {
                Ok(a) => self@.nodes.contains_key(ino) && a == (AttrReply {
                    ttl: TTL_SECS,
                    attr: node_attr(ino, self@.nodes[ino]),
                }),
                Err(e) => !self@.nodes.contains_key(ino) && e == FsError::NotFound,
            },
    {
        match self.node(ino) {
            None => Err(FsError::NotFound),
            Some(n) => Ok(AttrReply { ttl: TTL_SECS, attr: attributes(ino, n) }),
        }
    }
}

impl Default for MemoryFS {
    /// A filesystem that holds the root directory and nothing else.
    fn default() -> (fs: MemoryFS)
        ensures
            fs.wf(),
            fs@.nodes == fresh_table(),
            fs@.next_ino == 2,
    {
        MemoryFS::new(HashMap::new())
    }
}

} // verus!
