//! The metadata that is reported for an entry, and the answers built on it.

use vstd::prelude::*;
use super::inter::node::{FileKind, Node, NodeView};

verus! {

/// For how many seconds the host may cache an answer.
pub const TTL_SECS: u64 = 1;

/// Every timestamp, in seconds since the epoch: no clock is kept.
pub const EPOCH_SECS: u64 = 0;

/// Permission bits of every entry.
pub const PERMISSIONS: u16 = 0o777;

/// Owner of every entry.
pub const OWNER_UID: u32 = 501;

/// Group of every entry.
pub const OWNER_GID: u32 = 20;

/// Block size in bytes.
pub const BLOCK_SIZE: u32 = 512;

/// The metadata of one entry.
#[derive(Clone, Copy, Debug, PartialEq, Eq, Structural)]
pub struct FileAttr {
    pub ino: u64,
    pub size: u64,
    pub blocks: u64,
    pub atime: u64,
    pub mtime: u64,
    pub ctime: u64,
    pub crtime: u64,
    pub kind: FileKind,
    pub perm: u16,
    pub nlink: u32,
    pub uid: u32,
    pub gid: u32,
    pub rdev: u32,
    pub flags: u32,
    pub blksize: u32,
}

/// The answer to a request that resolves or makes an entry.
#[derive(Clone, Copy, Debug, PartialEq, Eq, Structural)]
pub struct EntryReply {
    pub ttl: u64,
    pub attr: FileAttr,
    pub generation: u64,
}

/// The answer to a request for an entry's metadata.
#[derive(Clone, Copy, Debug, PartialEq, Eq, Structural)]
pub struct AttrReply {
    pub ttl: u64,
    pub attr: FileAttr,
}

/// The answer to a request that creates a file and opens it.
#[derive(Clone, Copy, Debug, PartialEq, Eq, Structural)]
pub struct CreateReply {
    pub ttl: u64,
    pub attr: FileAttr,
    pub generation: u64,
    pub fh: u64,
    pub flags: u32,
}

/// The metadata of the entry `ino` with the given size and kind: one block,
/// one link, and the fixed times, permissions and owner.
pub open spec fn attr_of(ino: u64, size: u64, kind: FileKind) -> FileAttr {
    FileAttr {
        ino,
        size,
        blocks: 1,
        atime: EPOCH_SECS,
        mtime: EPOCH_SECS,
        ctime: EPOCH_SECS,
        crtime: EPOCH_SECS,
        kind,
        perm: PERMISSIONS,
        nlink: 1,
        uid: OWNER_UID,
        gid: OWNER_GID,
        rdev: 0,
        flags: 0,
        blksize: BLOCK_SIZE,
    }
}

/// The metadata of `node`, stored under `ino`.
pub open spec fn node_attr(ino: u64, node: NodeView) -> FileAttr {
    attr_of(ino, node.size, node.kind)
}

/// The answer that carries the metadata of `node`, stored under `ino`.
pub open spec fn entry_reply(ino: u64, node: NodeView) -> EntryReply {
    EntryReply { ttl: TTL_SECS, attr: node_attr(ino, node), generation: 0 }
}

/// The answer to the creation of the file `ino` under `parent`.
pub open spec fn create_reply(ino: u64, node: NodeView) -> CreateReply {
    CreateReply { ttl: TTL_SECS, attr: node_attr(ino, node), generation: 0, fh: ino, flags: 0 }
}

/// Builds the metadata of an entry.
pub fn synthesize(ino: u64, size: u64, kind: FileKind) -> (a: FileAttr)
    ensures
        a == attr_of(ino, size, kind),
{
    FileAttr {
        ino,
        size,
        blocks: 1,
        atime: EPOCH_SECS,
        mtime: EPOCH_SECS,
        ctime: EPOCH_SECS,
        crtime: EPOCH_SECS,
        kind,
        perm: PERMISSIONS,
        nlink: 1,
        uid: OWNER_UID,
        gid: OWNER_GID,
        rdev: 0,
        flags: 0,
        blksize: BLOCK_SIZE,
    }
}

/// Builds the metadata of `node`, stored under `ino`.
pub fn attributes(ino: u64, node: &Node) -> (a: FileAttr)
    ensures
        a == node_attr(ino, node@),
{
    synthesize(ino, node.data.size, node.data.kind)
}

} // verus!
