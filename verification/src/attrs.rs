//! What a vectorized file system reports of a file, what is asked of it, and
//! how its errors are told.
use crate::config::{Config, Format};
use vstd::prelude::*;

verus! {

pub const ATTR_MODE: u32 = 0x1;

pub const ATTR_SIZE: u32 = 0x2;

pub const ATTR_NLINK: u32 = 0x4;

pub const ATTR_FILEID: u32 = 0x8;

pub const ATTR_BLOCKS: u32 = 0x10;

pub const ATTR_UID: u32 = 0x20;

pub const ATTR_GID: u32 = 0x40;

pub const ATTR_RDEV: u32 = 0x80;

pub const ATTR_ATIME: u32 = 0x100;

pub const ATTR_MTIME: u32 = 0x200;

pub const ATTR_CTIME: u32 = 0x400;

pub const ATTR_NAMED_ATTR: u32 = 0x800;

/// A set of file attributes, one bit each.
#[derive(Clone, Copy, Debug, PartialEq, Eq, Structural)]
pub struct AttrMask {
    pub bits: u32,
}

impl AttrMask {
    /// Whether every attribute of `flags` is in the set.
    pub open spec fn has(self, flags: u32) -> bool {
        self.bits & flags == flags
    }

    pub fn contains(&self, flags: u32) -> (r: bool)
        ensures
            r == self.has(flags),
    {
        self.bits & flags == flags
    }
}

/// The attributes that every entry is listed with.
pub open spec fn listed_attributes() -> u32 {
    ATTR_MODE | ATTR_SIZE | ATTR_NLINK | ATTR_FILEID | ATTR_BLOCKS | ATTR_UID | ATTR_GID
        | ATTR_RDEV | ATTR_ATIME | ATTR_MTIME | ATTR_CTIME
}

/// The attributes to ask for. Whether a file has named attributes costs the
/// server a look at each file and is shown by the long format alone, so it is
/// asked for then only.
pub fn full_mask(config: &Config) -> (r: AttrMask)
    ensures
        r.bits == (if config.format == Format::Long {
            listed_attributes() | ATTR_NAMED_ATTR
        } else {
            listed_attributes()
        }),
{
    let mask: u32 = ATTR_MODE | ATTR_SIZE | ATTR_NLINK | ATTR_FILEID | ATTR_BLOCKS | ATTR_UID
        | ATTR_GID | ATTR_RDEV | ATTR_ATIME | ATTR_MTIME | ATTR_CTIME;
    if config.format == Format::Long {
        AttrMask { bits: mask | ATTR_NAMED_ATTR }
    } else {
        AttrMask { bits: mask }
    }
}

/// Every attribute that a listing shows is asked for, in either form of the mask.
pub proof fn law_mask_covers_listing(m: AttrMask, long: bool)
    requires
        m.bits == (if long {
            listed_attributes() | ATTR_NAMED_ATTR
        } else {
            listed_attributes()
        }),
    ensures
        m.has(ATTR_MODE) && m.has(ATTR_SIZE) && m.has(ATTR_NLINK) && m.has(ATTR_FILEID),
        m.has(ATTR_BLOCKS) && m.has(ATTR_UID) && m.has(ATTR_GID) && m.has(ATTR_RDEV),
        m.has(ATTR_ATIME) && m.has(ATTR_MTIME) && m.has(ATTR_CTIME),
        m.has(ATTR_NAMED_ATTR) == long,
{
    let b = m.bits;
    assert((0x1u32 | 0x2 | 0x4 | 0x8 | 0x10 | 0x20 | 0x40 | 0x80 | 0x100 | 0x200 | 0x400) == 0x7ff)
        by (bit_vector);
    assert((0x7ffu32 | 0x800) == 0xfff) by (bit_vector);
    assert(b == 0x7ff || b == 0xfff ==> b & 0x1 == 0x1 && b & 0x2 == 0x2 && b & 0x4 == 0x4 && b
        & 0x8 == 0x8 && b & 0x10 == 0x10 && b & 0x20 == 0x20 && b & 0x40 == 0x40 && b & 0x80 == 0x80
        && b & 0x100 == 0x100 && b & 0x200 == 0x200 && b & 0x400 == 0x400) by (bit_vector);
    assert(0xfffu32 & 0x800 == 0x800 && 0x7ffu32 & 0x800 == 0) by (bit_vector);
}

/// What the backend reports of one file. A field counts only where `returned`
/// names its attribute.
#[derive(Debug)]
pub struct VfAttrs {
    pub path: Option<Vec<u8>>,
    pub ftype: u32,
    pub returned: AttrMask,
    pub size: u64,
    pub nlink: u32,
    pub uid: u32,
    pub gid: u32,
    pub rdev: u64,
    pub fileid: u64,
    pub blocks: u64,
    pub mode: u32,
    pub atime_sec: i64,
    pub atime_nsec: u32,
    pub mtime_sec: i64,
    pub mtime_nsec: u32,
    pub ctime_sec: i64,
    pub ctime_nsec: u32,
}

// ---------------------------------------------------------------------------
// Errors
// ---------------------------------------------------------------------------

/// No such file or directory.
pub const ERR_NOENT: i32 = 2;

/// Permission denied.
pub const ERR_ACCES: i32 = 13;

/// The file exists.
pub const ERR_EXIST: i32 = 17;

/// Not a directory.
pub const ERR_NOTDIR: i32 = 20;

/// Is a directory.
pub const ERR_ISDIR: i32 = 21;

/// Invalid argument.
pub const ERR_INVAL: i32 = 22;

/// What kind of failure an operation met.
#[derive(Clone, Copy, Debug, PartialEq, Eq, Structural)]
pub enum ErrorKind {
    NotFound,
    PermissionDenied,
    AlreadyExists,
    InvalidInput,
    NotADirectory,
    IsADirectory,
    ConnectionRefused,
    Other,
}

/// What went wrong in the backend.
#[derive(Clone, Copy, Debug, PartialEq, Eq, Structural)]
pub enum VfFault {
    /// The server could not be talked to.
    Transport,
    /// The file system refused, with this status.
    Op { err_no: i32 },
    Other,
}

/// An error of the backend, with the operation of the batch that it struck.
#[derive(Clone, Copy, Debug, PartialEq, Eq, Structural)]
pub struct VfError {
    pub fault: VfFault,
    pub index: Option<usize>,
}

/// An error of the backend as a file error; what the backend said is kept.
#[derive(Clone, Copy, Debug, PartialEq, Eq, Structural)]
pub struct VfIoError {
    pub kind: ErrorKind,
    pub source: VfError,
}

pub open spec fn error_kind(fault: VfFault) -> ErrorKind {
    match fault {
        VfFault::Transport => ErrorKind::ConnectionRefused,
        VfFault::Op { err_no } => if err_no == 2 {
            ErrorKind::NotFound
        } else if err_no == 13 {
            ErrorKind::PermissionDenied
        } else if err_no == 17 {
            ErrorKind::AlreadyExists
        } else if err_no == 22 {
            ErrorKind::InvalidInput
        } else if err_no == 20 {
            ErrorKind::NotADirectory
        } else if err_no == 21 {
            ErrorKind::IsADirectory
        } else {
            ErrorKind::Other
        },
        VfFault::Other => ErrorKind::Other,
    }
}

/// Tells a backend error as a file error.
pub fn vf_io_error(e: VfError) -> (r: VfIoError)
    ensures
        r.kind == error_kind(e.fault),
        r.source == e,
{
    let kind = match e.fault {
        VfFault::Transport => ErrorKind::ConnectionRefused,
        VfFault::Op { err_no } => {
            if err_no == ERR_NOENT {
                ErrorKind::NotFound
            } else if err_no == ERR_ACCES {
                ErrorKind::PermissionDenied
            } else if err_no == ERR_EXIST {
                ErrorKind::AlreadyExists
            } else if err_no == ERR_INVAL {
                ErrorKind::InvalidInput
            } else if err_no == ERR_NOTDIR {
                ErrorKind::NotADirectory
            } else if err_no == ERR_ISDIR {
                ErrorKind::IsADirectory
            } else {
                ErrorKind::Other
            }
        },
        VfFault::Other => ErrorKind::Other,
    };
    VfIoError { kind, source: e }
}

} // verus!
