//! The kernel's file-system interface.

pub mod path;
pub mod tempfs;

use vstd::prelude::*;

verus! {

/// A directory entry: a file or a directory, by name.
pub enum Entry {
    File(String),
    Dir(String),
}

/// A directory entry as a value: whether it is a directory, and its name.
pub open spec fn entry_view(e: Entry) -> (bool, Seq<char>) {
    match e {
        Entry::File(name) => (false, name@),
        Entry::Dir(name) => (true, name@),
    }
}

/// Errors of file-system operations.
#[derive(Debug, Clone, Copy, PartialEq, Eq, Structural)]
pub enum FsError {
    NotFound,
    AlreadyExists,
    NotADirectory,
    IsADirectory,
}

/// Operations every file system offers.
pub trait FileSystem {
    /// Whether the file system's bookkeeping is consistent.
    spec fn fs_wf(&self) -> bool;

    /// The contents of the file at `path`.
    fn read(&self, path: &str) -> Result<Vec<u8>, FsError>
        requires
            self.fs_wf(),
    ;

    /// Replace the contents of the file at `path`, creating it if needed.
    fn write(&mut self, path: &str, data: &[u8]) -> (r: Result<(), FsError>)
        requires
            old(self).fs_wf(),
        ensures
            final(self).fs_wf(),
    ;

    /// The names in the directory at `path`; directories end in `/`.
    fn list(&self, path: &str) -> Result<Vec<String>, FsError>
        requires
            self.fs_wf(),
    ;

    /// Delete the file at `path`.
    fn remove(&mut self, path: &str) -> (r: Result<(), FsError>)
        requires
            old(self).fs_wf(),
        ensures
            final(self).fs_wf(),
    ;
}

} // verus!
