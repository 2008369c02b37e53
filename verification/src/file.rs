//! The descriptor-level interface: error kinds, open and descriptor
//! flags, seek origins, file kinds, and the reserved descriptor numbers.

use vstd::prelude::*;

verus! {

/// The chain-root directory is always open at this descriptor.
pub const CHAIN_DIR_FILENO: u32 = 3;

/// The caller's home directory is always open at this descriptor.
pub const HOME_DIR_FILENO: u32 = 4;

/// The error kinds a filesystem call can report.
#[derive(Clone, Copy, Debug, PartialEq, Eq, Structural)]
pub enum ErrNo {
    /// The descriptor does not name an open handle, or names one of the
    /// wrong kind.
    BadDescriptor,
    /// The path does not resolve to an existing file, or escapes the
    /// sandbox root.
    NotFound,
    /// The file already exists and the call demanded otherwise.
    AlreadyExists,
    /// A malformed argument: an empty path, a negative seek, a read from
    /// an unreadable stream, flags a special file cannot take.
    InvalidArgument,
    /// The operation is forbidden on this file, however well-formed the
    /// call: unlinking a special file, writing a read-only one.
    AccessDenied,
}

/// Flags given to `open`.
#[derive(Clone, Copy, Debug, PartialEq, Eq, Structural)]
pub struct OpenFlags {
    /// Create the file if it is absent.
    pub create: bool,
    /// Fail with `AlreadyExists` if the file exists.
    pub excl: bool,
    /// Discard existing content at open time.
    pub trunc: bool,
}

impl OpenFlags {
    pub fn empty() -> (r: OpenFlags)
        ensures
            r == (OpenFlags { create: false, excl: false, trunc: false }),
    {
        OpenFlags { create: false, excl: false, trunc: false }
    }

    pub fn create() -> (r: OpenFlags)
        ensures
            r == (OpenFlags { create: true, excl: false, trunc: false }),
    {
        OpenFlags { create: true, excl: false, trunc: false }
    }

    pub fn excl() -> (r: OpenFlags)
        ensures
            r == (OpenFlags { create: false, excl: true, trunc: false }),
    {
        OpenFlags { create: false, excl: true, trunc: false }
    }

    pub fn trunc() -> (r: OpenFlags)
        ensures
            r == (OpenFlags { create: false, excl: false, trunc: true }),
    {
        OpenFlags { create: false, excl: false, trunc: true }
    }

    /// The union of two flag sets.
    pub fn union(self, other: OpenFlags) -> (r: OpenFlags)
        ensures
            r == (OpenFlags {
                create: self.create || other.create,
                excl: self.excl || other.excl,
                trunc: self.trunc || other.trunc,
            }),
    {
        OpenFlags {
            create: self.create || other.create,
            excl: self.excl || other.excl,
            trunc: self.trunc || other.trunc,
        }
    }
}

/// Flags carried by an open descriptor.
#[derive(Clone, Copy, Debug, PartialEq, Eq, Structural)]
pub struct FdFlags {
    /// Every write lands at end-of-content.
    pub append: bool,
}

impl FdFlags {
    pub fn empty() -> (r: FdFlags)
        ensures
            r == (FdFlags { append: false }),
    {
        FdFlags { append: false }
    }

    pub fn append() -> (r: FdFlags)
        ensures
            r == (FdFlags { append: true }),
    {
        FdFlags { append: true }
    }
}

/// Where a seek offset is measured from.
#[derive(Clone, Copy, Debug, PartialEq, Eq, Structural)]
pub enum Whence {
    Start,
    Current,
    End,
}

/// What kind of object a descriptor refers to.
#[derive(Clone, Copy, Debug, PartialEq, Eq, Structural)]
pub enum FileType {
    RegularFile,
    Directory,
}

/// What `fdstat` reports of a descriptor.
#[derive(Clone, Copy, Debug, PartialEq, Eq, Structural)]
pub struct FdStat {
    pub file_type: FileType,
    pub flags: FdFlags,
}

/// What `filestat` reports of a descriptor's file.
#[derive(Clone, Copy, Debug, PartialEq, Eq, Structural)]
pub struct FileStat {
    pub file_type: FileType,
    pub file_size: u64,
}

} // verus!
