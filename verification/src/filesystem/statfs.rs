//! The figures reported for the filesystem as a whole, computed from the
//! host's memory and the id counter.

use vstd::prelude::*;
use super::attr::BLOCK_SIZE;

verus! {

/// How many ids the filesystem reports to have in all.
pub const TOTAL_INODES: u64 = 1000000;

/// Longest name in bytes.
pub const MAX_NAME_LEN: u32 = 255;

/// The figures reported for the filesystem.
#[derive(Clone, Copy, Debug, PartialEq, Eq, Structural)]
pub struct StatfsReply {
    pub blocks: u64,
    pub bfree: u64,
    pub bavail: u64,
    pub files: u64,
    pub ffree: u64,
    pub bsize: u32,
    pub namelen: u32,
    pub frsize: u32,
}

/// The figures for a host with `total_bytes` of memory of which
/// `available_bytes` are available, when the id counter stands at
/// `next_ino`: memory in blocks, and the ids that the counter has not
/// reached, none where it is past the total.
pub open spec fn statfs_of(total_bytes: u64, available_bytes: u64, next_ino: u64) -> StatfsReply {
    StatfsReply {
        blocks: total_bytes / (BLOCK_SIZE as u64),
        bfree: available_bytes / (BLOCK_SIZE as u64),
        bavail: available_bytes / (BLOCK_SIZE as u64),
        files: TOTAL_INODES,
        ffree: if next_ino <= TOTAL_INODES {
            (TOTAL_INODES - next_ino) as u64
        } else {
            0
        },
        bsize: BLOCK_SIZE,
        namelen: MAX_NAME_LEN,
        frsize: 0,
    }
}

/// Computes the figures to report.
pub fn statistics(total_bytes: u64, available_bytes: u64, next_ino: u64) -> (r: StatfsReply)
    ensures
        r == statfs_of(total_bytes, available_bytes, next_ino),
{
    let block = BLOCK_SIZE as u64;
    StatfsReply {
        blocks: total_bytes / block,
        bfree: available_bytes / block,
        bavail: available_bytes / block,
        files: TOTAL_INODES,
        ffree: if next_ino <= TOTAL_INODES {
            TOTAL_INODES - next_ino
        } else {
            0
        },
        bsize: BLOCK_SIZE,
        namelen: MAX_NAME_LEN,
        frsize: 0,
    }
}

/// Where no more memory is available than there is, no more blocks are
/// free than there are, and the blocks open to users are the free ones; no
/// more ids are free than there are.
pub proof fn lemma_statfs_sane(total_bytes: u64, available_bytes: u64, next_ino: u64)
    requires
        available_bytes <= total_bytes,
    ensures
        0 <= statfs_of(total_bytes, available_bytes, next_ino).bfree <= statfs_of(
            total_bytes,
            available_bytes,
            next_ino,
        ).blocks,
        statfs_of(total_bytes, available_bytes, next_ino).bavail == statfs_of(
            total_bytes,
            available_bytes,
            next_ino,
        ).bfree,
        statfs_of(total_bytes, available_bytes, next_ino).ffree <= statfs_of(
            total_bytes,
            available_bytes,
            next_ino,
        ).files,
{
    assert(BLOCK_SIZE as u64 == 512);
}

} // verus!
