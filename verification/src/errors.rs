//! The kinds of failure.
//!
//! Each error of this library is of one kind. An error of a file or of a
//! network is of the kind `IoFailed`; it arises where files are read and
//! written, not here. That a user has no index and that a search finds
//! nothing are no errors: a search then has no result, or an empty one.

use vstd::prelude::*;
use crate::compression::CodecError;
use crate::index_file::IndexError;
use crate::ivf_builder::BuildError;
use crate::ivf_reader::ReadError;
use crate::ivf_writer::WriteError;
use crate::vector_storage::StorageError;

verus! {

/// The kinds of failure.
#[derive(Clone, Copy, Debug, PartialEq, Eq)]
pub enum ErrorKind {
    /// An option is missing or out of range.
    ConfigInvalid,
    /// The operating system failed to read or write.
    IoFailed,
    /// A file of an index is not what it should be, or is asked for what it
    /// does not hold.
    IndexCorrupt,
    /// A build could not be completed.
    BuildFailed,
}

impl IndexError {
    /// The kind of the error: the index is corrupt.
    pub fn kind(&self) -> (k: ErrorKind)
        ensures
            k == ErrorKind::IndexCorrupt,
    {
        ErrorKind::IndexCorrupt
    }
}

impl StorageError {
    /// The kind of the error: a file that is too short is corrupt; vectors
    /// that are too long come from an option out of range.
    pub fn kind(&self) -> (k: ErrorKind)
        ensures
            k == (match *self {
                StorageError::Truncated => ErrorKind::IndexCorrupt,
                StorageError::VectorTooLong => ErrorKind::ConfigInvalid,
            }),
    {
        match self {
            StorageError::Truncated => ErrorKind::IndexCorrupt,
            StorageError::VectorTooLong => ErrorKind::ConfigInvalid,
        }
    }
}

impl ReadError {
    /// The kind of the error: that of the file that could not be opened.
    pub fn kind(&self) -> (k: ErrorKind)
        ensures
            k == (match *self {
                ReadError::Storage(StorageError::VectorTooLong) => ErrorKind::ConfigInvalid,
                _ => ErrorKind::IndexCorrupt,
            }),
    {
        match self {
            ReadError::Storage(e) => e.kind(),
            _ => ErrorKind::IndexCorrupt,
        }
    }
}

impl CodecError {
    /// The kind of the error: bytes that are no code are corrupt; values
    /// that cannot be encoded fail a build.
    pub fn kind(&self) -> (k: ErrorKind)
        ensures
            k == (match *self {
                CodecError::Malformed => ErrorKind::IndexCorrupt,
                _ => ErrorKind::BuildFailed,
            }),
    {
        match self {
            CodecError::Malformed => ErrorKind::IndexCorrupt,
            _ => ErrorKind::BuildFailed,
        }
    }
}

impl WriteError {
    /// The kind of the error: the build failed.
    pub fn kind(&self) -> (k: ErrorKind)
        ensures
            k == ErrorKind::BuildFailed,
    {
        ErrorKind::BuildFailed
    }
}

impl BuildError {
    /// The kind of the error: the build failed.
    pub fn kind(&self) -> (k: ErrorKind)
        ensures
            k == ErrorKind::BuildFailed,
    {
        ErrorKind::BuildFailed
    }
}

} // verus!
