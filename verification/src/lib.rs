//! An interpreter for ext2 filesystem images held in memory.
//!
//! The image is a single owned byte buffer. The library parses the
//! superblock and block-group descriptor table, resolves inodes, walks
//! directory-entry records, reads regular files, and inserts new names
//! into existing directory data blocks. Every operation is specified
//! against a mathematical model of the on-disk layout.

use vstd::prelude::*;

pub mod bytes;
pub mod layout;
pub mod fs;
pub mod dir;
pub mod file;
pub mod path;
pub mod mutate;
pub mod shell;

verus! {

/// The ways an operation on an ext2 image can fail.
#[derive(Clone, Copy, Debug, PartialEq, Eq, Structural)]
pub enum Ext2Error {
    /// The superblock magic number is not 0xEF53.
    NotExt2,
    /// The buffer is too small for the structure an access asked for.
    Truncated,
    /// The image declares a geometry this view does not index.
    UnsupportedGeometry,
    /// An inode number is zero or beyond `inodes_count`.
    NoSuchInode,
    /// The inode does not carry the directory type bit.
    NotADirectory,
    /// The inode does not carry the regular-file type bit.
    NotAFile,
    /// A path component matched no entry of the directory being scanned.
    NoSuchEntry,
    /// A non-final path component resolved to a non-directory inode.
    NotADirectoryInPath,
    /// A directory's record list violates the layout invariants.
    MalformedDirectory,
    /// An insert would not fit in the slack of the directory's last record.
    NoSpace,
    /// A name to insert is too long or contains a NUL byte.
    BadName,
}

} // verus!
