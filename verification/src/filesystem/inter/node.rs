//! The record of one entry of the filesystem: a file or a directory.

use vstd::prelude::*;
use super::directory::{sorted, Directory, EntryView};

verus! {

/// What an entry is.
#[derive(Clone, Copy, Debug, PartialEq, Eq, Structural)]
pub enum FileKind {
    Directory,
    RegularFile,
}

/// The payload of an entry: the bytes of a file, the kind, and the size
/// that is reported for it.
pub struct Data {
    pub content: Option<Vec<u8>>,
    pub kind: FileKind,
    pub size: u64,
}

/// One entry of the inode table.
pub struct Node {
    pub data: Data,
    pub children: Option<Directory>,
    pub parent: u64,
}

/// What a `Node` stands for.
pub struct NodeView {
    pub kind: FileKind,
    pub content: Option<Seq<u8>>,
    pub size: u64,
    pub children: Option<Seq<EntryView>>,
    pub parent: u64,
}

impl View for Node {
    type V = NodeView;

    open spec fn view(&self) -> NodeView {
        NodeView {
            kind: self.data.kind,
            content: match self.data.content {
                Some(bytes) => Some(bytes@),
                None => None,
            },
            size: self.data.size,
            children: match self.children {
                Some(dir) => Some(dir@),
                None => None,
            },
            parent: self.parent,
        }
    }
}

/// A directory without children, as it is when created under `parent`.
pub open spec fn empty_directory(parent: u64) -> NodeView {
    NodeView {
        kind: FileKind::Directory,
        content: None,
        size: 0,
        children: Some(Seq::empty()),
        parent,
    }
}

/// A file without content, as it is when created under `parent`.
pub open spec fn empty_file(parent: u64) -> NodeView {
    NodeView {
        kind: FileKind::RegularFile,
        content: Some(Seq::empty()),
        size: 0,
        children: None,
        parent,
    }
}

impl NodeView {
    /// A directory has children, sorted by name, no content and size 0; a
    /// file has content, no children, and the size is the content's length.
    pub open spec fn wf(self) -> bool {
        match self.kind {
            FileKind::Directory => {
                &&& self.children is Some
                &&& sorted(self.children->0)
                &&& self.content is None
                &&& self.size == 0
            },
            FileKind::RegularFile => {
                &&& self.children is None
                &&& self.content is Some
                &&& self.size == self.content->0.len()
            },
        }
    }

    pub open spec fn is_dir(self) -> bool {
        self.kind == FileKind::Directory
    }

    pub open spec fn is_file(self) -> bool {
        self.kind == FileKind::RegularFile
    }

    /// The children of a directory; no entries for a file.
    pub open spec fn entries(self) -> Seq<EntryView> {
        match self.children {
            Some(s) => s,
            None => Seq::empty(),
        }
    }
}

impl Node {
    /// A new directory under `parent`.
    pub fn new_directory(parent: u64) -> (n: Node)
        ensures
            n@ == empty_directory(parent),
            n@.wf(),
    {
        Node {
            data: Data { content: None, kind: FileKind::Directory, size: 0 },
            children: Some(Directory::new()),
            parent,
        }
    }

    /// A new file under `parent`.
    pub fn new_file(parent: u64) -> (n: Node)
        ensures
            n@ == empty_file(parent),
            n@.wf(),
    {
        Node {
            data: Data { content: Some(Vec::new()), kind: FileKind::RegularFile, size: 0 },
            children: None,
            parent,
        }
    }
}

} // verus!
