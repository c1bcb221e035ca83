//! What can go wrong, from the transport up to the filesystem.

use vstd::prelude::*;

verus! {

/// A failure of the sector transport. It carries nothing: the transport
/// reports only that the transfer did not happen.
#[derive(Clone, Copy, Debug, PartialEq, Eq, Structural)]
pub struct IoError;

/// Every way in which an operation of the engine can fail.
#[derive(Clone, Copy, Debug, PartialEq, Eq, Structural)]
pub enum Error {
    /// A path component does not exist and may not be created.
    NotFound,
    /// The name is already taken in that directory.
    AlreadyExists,
    /// A directory was needed and a file was found.
    NotADirectory,
    /// A file was needed and a directory was found.
    IsADirectory,
    /// The directory to remove still has entries.
    DirectoryNotEmpty,
    /// The name is longer than a directory entry can hold.
    NameTooLong,
    /// The name is empty, or holds a NUL byte or a path separator.
    InvalidName,
    /// No free block, no room left in a block list, or no free handle.
    NoSpace,
    /// The descriptor names no open handle.
    InvalidDescriptor,
    /// A block index or an offset lies outside of what can be addressed.
    OutOfRange,
    /// The transport failed.
    IoError(IoError),
    /// The device has not been mounted or formatted yet.
    Uninitialized,
    /// A structure read from the device does not hold together.
    Corrupted,
}

impl Error {
    /// Whether this is a failure of the transport.
    pub open spec fn is_io(self) -> bool {
        self is IoError
    }
}

} // verus!
