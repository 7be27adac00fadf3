//! A portable file-system abstraction layer for storage engines.
//!
//! The crate models a uniform contract for opening, reading, writing,
//! listing, renaming and deleting files and directories, together with a
//! batched durability primitive. The in-memory backing is fully verified;
//! an on-disk backing delegates to the host and lives outside the verified
//! core.

use vstd::prelude::*;

pub mod fsync;
pub mod laws;
pub mod memory;
pub mod path;
mod table;

verus! {

/// The error kinds surfaced by a file-manager backing.
#[derive(Debug, Clone, Copy, PartialEq, Eq, Structural)]
pub enum FsError {
    /// A file or directory was missing where one was required.
    NotFound,
    /// A directory creation conflicted with an existing non-directory entry.
    AlreadyExists,
    /// The request cannot be honoured by this backing: a relative path where
    /// an absolute one is required, removing the root, byte I/O on a
    /// directory handle, or a seek before the start of the file.
    Unsupported,
    /// An internal fault: a cursor or length that does not fit the platform,
    /// or an exhausted handle space.
    Other,
}

/// A cursor movement for a seek: relative to the start, the end, or the
/// current position of the file.
#[derive(Clone, Copy, Debug, PartialEq, Eq, Structural)]
pub enum SeekFrom {
    Start(u64),
    End(i64),
    Current(i64),
}

/// The read / write / create intent of an `open` call.
///
/// The three flags are independent and default to `false`.
pub struct OpenOptions {
    pub read: bool,
    pub write: bool,
    pub create: bool,
}

impl OpenOptions {
    /// A fresh set of options with every intent disabled.
    pub fn new() -> (r: Self)
        ensures
            !r.read,
            !r.write,
            !r.create,
    {
        OpenOptions { read: false, write: false, create: false }
    }

    /// Set the read intent, leaving the other flags unchanged.
    pub fn read(self, read: bool) -> (r: Self)
        ensures
            r.read == read,
            r.write == self.write,
            r.create == self.create,
    {
        OpenOptions { read, ..self }
    }

    /// Set the write intent, leaving the other flags unchanged.
    pub fn write(self, write: bool) -> (r: Self)
        ensures
            r.read == self.read,
            r.write == write,
            r.create == self.create,
    {
        OpenOptions { write, ..self }
    }

    /// Set the create intent, leaving the other flags unchanged.
    pub fn create(self, create: bool) -> (r: Self)
        ensures
            r.read == self.read,
            r.write == self.write,
            r.create == create,
    {
        OpenOptions { create, ..self }
    }
}

} // verus!
