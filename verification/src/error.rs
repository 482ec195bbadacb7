//! What an operation of the file system can fail with.
use vstd::prelude::*;

verus! {

/// Why an operation on the file system failed.
#[derive(Clone, Copy, Debug, PartialEq, Eq, Structural)]
pub enum Ext2Error {
    /// The operation needs a directory and was given something else.
    NotADirectory,
    /// The operation needs a file and was given a directory.
    IsADirectory,
    /// The name is taken.
    AlreadyExists,
    /// No entry has the name.
    NotFound,
    /// No inode or no data block is free.
    NoSpace,
    /// What the device holds is not a valid file system.
    InvalidData,
    /// A structure on disk contradicts itself or another.
    Corruption,
}

} // verus!
