//! The records kept in the inode table and the order of names in a directory.

pub mod directory;
pub mod name;
pub mod node;
