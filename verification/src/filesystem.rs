//! The inode table and everything stored in it.

pub mod attr;
pub mod error;
pub mod inter;
pub mod memory_fs;
pub mod moving;
pub mod outcome;
pub mod statfs;
pub mod subtree;
pub mod tree;
