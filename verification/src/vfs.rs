//! Value types of the filesystem abstraction. Backends (a local directory,
//! an SFTP session) live outside the library and hand these plain values in.

use vstd::prelude::*;

verus! {

/// What kind of directory entry a stat call reported.
#[derive(Clone, Copy, Debug, PartialEq, Eq, Structural)]
pub enum FileType {
    Regular,
    Directory,
    Unknown,
}

/// The observed status of a file: its kind, size in bytes, and modification
/// time in whole seconds since the epoch.
#[derive(Clone, Copy, Debug, PartialEq, Eq, Structural)]
pub struct FileStatus {
    pub file_type: FileType,
    pub size: u64,
    pub mtime: u64,
}

} // verus!
