//! An ephemeral, in-memory hierarchical filesystem: the inode table, the
//! directory tree it holds, and the operations that query and change it.

pub mod filesystem;
pub mod memory;
