//! What can go wrong during a traversal.

use crate::path::FsPath;
use vstd::prelude::*;

verus! {

/// Why an operation of the file system failed.
#[derive(Clone, Debug, PartialEq, Eq)]
pub enum IoFault {
    /// The volume of the traversal root is unknown, so the file system boundary is not
    /// watched.
    UnknownRootVolume,
    /// The volume of a directory is unknown, so it is not entered.
    UnknownVolume,
    /// Access was denied.
    AccessDenied,
    /// The path is longer than the platform takes.
    PathTooLong,
    /// Any other failure, in the words of the platform.
    Other(String),
}

/// A failure that traversal reports and survives.
#[derive(Clone, Debug, PartialEq, Eq)]
pub enum TreeError {
    /// An operation on the path failed.
    Io(FsPath, IoFault),
    /// Access to the path was denied.
    AccessDenied(FsPath),
    /// The path is too long.
    PathTooLong(FsPath),
    /// The directory lies deeper than traversal goes.
    MaxDepthExceeded(FsPath),
    /// The entry has a reserved device name.
    ReservedName(FsPath),
    /// The link leads to a directory that was visited already.
    SymlinkLoop(FsPath),
    /// Any other failure.
    Generic(String),
}

/// The error for a failed operation on `path`: denied access and overlong paths have
/// variants of their own.
pub open spec fn io_error(path: FsPath, fault: IoFault) -> TreeError {
    match fault {
        IoFault::AccessDenied => TreeError::AccessDenied(path),
        IoFault::PathTooLong => TreeError::PathTooLong(path),
        _ => TreeError::Io(path, fault),
    }
}

impl IoFault {
    /// The failure in words.
    pub open spec fn text(self) -> Seq<char> {
        match self {
            IoFault::UnknownRootVolume =>
                "--one-fs: cannot determine root volume; cross-device check skipped"@,
            IoFault::UnknownVolume => "cannot determine volume for --one-fs"@,
            IoFault::AccessDenied => "access denied"@,
            IoFault::PathTooLong => "path too long"@,
            IoFault::Other(message) => message@,
        }
    }

    /// The failure in words.
    pub fn message(&self) -> (result: String)
        ensures
            result@ == self.text(),
    {
        match self {
            IoFault::UnknownRootVolume =>
                "--one-fs: cannot determine root volume; cross-device check skipped".to_owned(),
            IoFault::UnknownVolume => "cannot determine volume for --one-fs".to_owned(),
            IoFault::AccessDenied => "access denied".to_owned(),
            IoFault::PathTooLong => "path too long".to_owned(),
            IoFault::Other(message) => message.clone(),
        }
    }
}

impl TreeError {
    /// The error for a failed operation on `path`.
    pub fn from_io(path: FsPath, fault: IoFault) -> (result: TreeError)
        ensures
            result == io_error(path, fault),
    {
        match fault {
            IoFault::AccessDenied => TreeError::AccessDenied(path),
            IoFault::PathTooLong => TreeError::PathTooLong(path),
            fault => TreeError::Io(path, fault),
        }
    }
}

/// Appends an error to the list of those met so far.
pub fn push_error(errors: &mut Vec<TreeError>, error: TreeError)
    ensures
        final(errors)@ == old(errors)@.push(error),
{
    errors.push(error);
}

} // verus!
