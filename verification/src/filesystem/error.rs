//! The failures that an operation can report.

use vstd::prelude::*;

verus! {

/// Why an operation did nothing.
#[derive(Clone, Copy, Debug, PartialEq, Eq, Structural)]
pub enum FsError {
    /// The id or the name is not there.
    NotFound,
    /// The name to create is taken.
    AlreadyExists,
    /// The request cannot be carried out on what it names.
    InvalidArgument,
}

/// The number under which the host knows each failure.
pub open spec fn error_code(e: FsError) -> i32 {
    match e {
        FsError::NotFound => 2,
        FsError::AlreadyExists => 17,
        FsError::InvalidArgument => 22,
    }
}

impl FsError {
    /// The number to answer the host with.
    pub fn code(&self) -> (c: i32)
        ensures
            c == error_code(*self),
    {
        match self {
            FsError::NotFound => 2,
            FsError::AlreadyExists => 17,
            FsError::InvalidArgument => 22,
        }
    }
}

} // verus!
