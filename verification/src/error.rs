//! What an operation reports when it does not succeed.

use crate::text::joined;
use vstd::prelude::*;

verus! {

/// Why an operation did not succeed.
#[derive(Debug, PartialEq, Eq)]
pub enum FsError {
    /// The image file could not be read or written.
    Io(String),
    /// The image does not hold a filesystem, or a damaged one.
    Corrupt,
    /// A path, a name or a descriptor that does not exist.
    NotFound(String),
    /// A path that exists already.
    AlreadyExists(String),
    /// A directory was needed.
    NotDir(String),
    /// A directory cannot be used this way.
    IsDir(String),
    /// No free inode, no free block, or no room in a directory or a file.
    NoSpace,
    /// A path that cannot be used.
    InvalidPath(String),
    /// A block number, a position or a length left the range of its type. No operation can go
    /// on from there: programs built on this crate are expected to panic.
    Fault,
}

/// The meaning of an `FsError`.
#[verifier::ext_equal]
pub enum Failure {
    Io(Seq<char>),
    Corrupt,
    NotFound(Seq<char>),
    AlreadyExists(Seq<char>),
    NotDir(Seq<char>),
    IsDir(Seq<char>),
    NoSpace,
    InvalidPath(Seq<char>),
    Fault,
}

impl View for FsError {
    type V = Failure;

    open spec fn view(&self) -> Failure {
        match self {
            FsError::Io(s) => Failure::Io(s@),
            FsError::Corrupt => Failure::Corrupt,
            FsError::NotFound(s) => Failure::NotFound(s@),
            FsError::AlreadyExists(s) => Failure::AlreadyExists(s@),
            FsError::NotDir(s) => Failure::NotDir(s@),
            FsError::IsDir(s) => Failure::IsDir(s@),
            FsError::NoSpace => Failure::NoSpace,
            FsError::InvalidPath(s) => Failure::InvalidPath(s@),
            FsError::Fault => Failure::Fault,
        }
    }
}

/// Whether a result is the one that `expected` describes.
pub open spec fn agrees<T: View>(r: Result<T, FsError>, expected: Result<T::V, Failure>) -> bool {
    match (r, expected) {
        (Ok(v), Ok(w)) => v@ == w,
        (Err(e), Err(f)) => e@ == f,
        _ => false,
    }
}

/// The line that is shown for a failure.
pub open spec fn failure_text(f: Failure) -> Seq<char> {
    match f {
        Failure::Io(s) => "io error: "@ + s,
        Failure::Corrupt => "corrupt filesystem"@,
        Failure::NotFound(s) => "not found: "@ + s,
        Failure::AlreadyExists(s) => "already exists: "@ + s,
        Failure::NotDir(s) => "not a directory: "@ + s,
        Failure::IsDir(s) => "is a directory: "@ + s,
        Failure::NoSpace => "no space"@,
        Failure::InvalidPath(s) => "invalid path: "@ + s,
        Failure::Fault => "value out of range"@,
    }
}

impl FsError {
    /// The line that is shown for this error.
    pub fn message(&self) -> (s: String)
        ensures
            s@ == failure_text(self@),
    {
        match self {
            FsError::Io(s) => joined("io error: ", s.as_str()),
            FsError::Corrupt => "corrupt filesystem".to_owned(),
            FsError::NotFound(s) => joined("not found: ", s.as_str()),
            FsError::AlreadyExists(s) => joined("already exists: ", s.as_str()),
            FsError::NotDir(s) => joined("not a directory: ", s.as_str()),
            FsError::IsDir(s) => joined("is a directory: ", s.as_str()),
            FsError::NoSpace => "no space".to_owned(),
            FsError::InvalidPath(s) => joined("invalid path: ", s.as_str()),
            FsError::Fault => "value out of range".to_owned(),
        }
    }
}

} // verus!
