//! File metadata, wherever it came from: read by the local file system, or
//! reported by a vectorized backend.
use crate::attrs::{
    error_kind, vf_io_error, ErrorKind, VfAttrs, VfError, ATTR_ATIME, ATTR_BLOCKS, ATTR_CTIME,
    ATTR_FILEID, ATTR_GID, ATTR_MODE, ATTR_MTIME, ATTR_NLINK, ATTR_RDEV, ATTR_SIZE, ATTR_UID,
};
use vstd::prelude::*;

verus! {

/// A coarse file type.
#[derive(Clone, Copy, Debug, PartialEq, Eq, Structural)]
pub enum LsFileType {
    Dir,
    File,
    Symlink,
    BlockDevice,
    CharDevice,
    Fifo,
    Socket,
    Unknown,
}

/// The answers of the local file system about the type of a file.
#[derive(Clone, Copy, Debug, PartialEq, Eq, Structural)]
pub struct StdFileType {
    pub is_dir: bool,
    pub is_file: bool,
    pub is_symlink: bool,
    pub is_block_device: bool,
    pub is_char_device: bool,
    pub is_fifo: bool,
    pub is_socket: bool,
}

/// The type that the first affirmative answer names.
pub open spec fn type_of_std(ft: StdFileType) -> LsFileType {
    if ft.is_dir {
        LsFileType::Dir
    } else if ft.is_file {
        LsFileType::File
    } else if ft.is_symlink {
        LsFileType::Symlink
    } else if ft.is_block_device {
        LsFileType::BlockDevice
    } else if ft.is_char_device {
        LsFileType::CharDevice
    } else if ft.is_fifo {
        LsFileType::Fifo
    } else if ft.is_socket {
        LsFileType::Socket
    } else {
        LsFileType::Unknown
    }
}

/// The type that a type code of the backend stands for.
pub open spec fn type_of_code(code: u32) -> LsFileType {
    if code == 1 {
        LsFileType::File
    } else if code == 2 {
        LsFileType::Dir
    } else if code == 5 {
        LsFileType::Symlink
    } else if code == 6 {
        LsFileType::BlockDevice
    } else if code == 7 {
        LsFileType::CharDevice
    } else if code == 8 {
        LsFileType::Fifo
    } else if code == 9 {
        LsFileType::Socket
    } else {
        LsFileType::Unknown
    }
}

impl LsFileType {
    pub fn from_std(ft: StdFileType) -> (r: LsFileType)
        ensures
            r == type_of_std(ft),
    {
        if ft.is_dir {
            LsFileType::Dir
        } else if ft.is_file {
            LsFileType::File
        } else if ft.is_symlink {
            LsFileType::Symlink
        } else if ft.is_block_device {
            LsFileType::BlockDevice
        } else if ft.is_char_device {
            LsFileType::CharDevice
        } else if ft.is_fifo {
            LsFileType::Fifo
        } else if ft.is_socket {
            LsFileType::Socket
        } else {
            LsFileType::Unknown
        }
    }

    pub fn from_ftype(ftype: u32) -> (r: LsFileType)
        ensures
            r == type_of_code(ftype),
    {
        match ftype {
            1 => LsFileType::File,
            2 => LsFileType::Dir,
            5 => LsFileType::Symlink,
            6 => LsFileType::BlockDevice,
            7 => LsFileType::CharDevice,
            8 => LsFileType::Fifo,
            9 => LsFileType::Socket,
            _ => LsFileType::Unknown,
        }
    }

    pub fn is_dir(self) -> (r: bool)
        ensures
            r == (self == LsFileType::Dir),
    {
        matches!(self, LsFileType::Dir)
    }

    pub fn is_file(self) -> (r: bool)
        ensures
            r == (self == LsFileType::File),
    {
        matches!(self, LsFileType::File)
    }

    pub fn is_symlink(self) -> (r: bool)
        ensures
            r == (self == LsFileType::Symlink),
    {
        matches!(self, LsFileType::Symlink)
    }

    pub fn is_block_device(self) -> (r: bool)
        ensures
            r == (self == LsFileType::BlockDevice),
    {
        matches!(self, LsFileType::BlockDevice)
    }

    pub fn is_char_device(self) -> (r: bool)
        ensures
            r == (self == LsFileType::CharDevice),
    {
        matches!(self, LsFileType::CharDevice)
    }

    pub fn is_fifo(self) -> (r: bool)
        ensures
            r == (self == LsFileType::Fifo),
    {
        matches!(self, LsFileType::Fifo)
    }

    pub fn is_socket(self) -> (r: bool)
        ensures
            r == (self == LsFileType::Socket),
    {
        matches!(self, LsFileType::Socket)
    }
}

// ---------------------------------------------------------------------------
// Time
// ---------------------------------------------------------------------------

pub const NANOS_PER_SEC: u32 = 1_000_000_000;

/// A point in time, counted from the start of 1970.
#[derive(Clone, Copy, Debug, PartialEq, Eq, Structural)]
pub struct Timestamp {
    pub secs: i64,
    pub nanos: u32,
}

impl Timestamp {
    /// Nanoseconds since the start of 1970.
    pub open spec fn total(self) -> int {
        self.secs * 1_000_000_000 + self.nanos
    }

    /// Whether `nanos` is less than a second.
    pub open spec fn normal(self) -> bool {
        self.nanos < 1_000_000_000
    }

    /// The start of 1970.
    pub fn epoch() -> (r: Timestamp)
        ensures
            r.total() == 0,
            r.normal(),
            r == (Timestamp { secs: 0, nanos: 0 }),
    {
        Timestamp { secs: 0, nanos: 0 }
    }
}

/// Whether `secs` seconds and `nsecs` nanoseconds make a time that can be held.
pub open spec fn time_fits(secs: int, nsecs: int) -> bool {
    i64::MIN < secs && secs + nsecs / 1_000_000_000 <= i64::MAX
}

/// The time that `secs` seconds and `nsecs` nanoseconds make.
pub open spec fn stamp(secs: int, nsecs: int) -> Timestamp {
    Timestamp {
        secs: (secs + nsecs / 1_000_000_000) as i64,
        nanos: (nsecs % 1_000_000_000) as u32,
    }
}

/// One time has one normal form, and `stamp` is it.
pub proof fn law_stamp_is_exact(secs: int, nsecs: int, t: Timestamp)
    requires
        time_fits(secs, nsecs),
        nsecs >= 0,
    ensures
        stamp(secs, nsecs).normal(),
        stamp(secs, nsecs).total() == secs * 1_000_000_000 + nsecs,
        t.normal() && t.total() == secs * 1_000_000_000 + nsecs ==> t == stamp(secs, nsecs),
{
}

// ---------------------------------------------------------------------------
// Metadata
// ---------------------------------------------------------------------------

/// What the local file system reports of one file. A time that it cannot tell
/// is left out.
#[derive(Clone, Copy, Debug, PartialEq, Eq, Structural)]
pub struct StdMetadata {
    pub file_type: StdFileType,
    pub len: u64,
    pub nlink: u64,
    pub uid: u32,
    pub gid: u32,
    pub rdev: u64,
    pub ino: u64,
    pub blocks: u64,
    pub mode: u32,
    pub modified: Option<Timestamp>,
    pub accessed: Option<Timestamp>,
    pub created: Option<Timestamp>,
    pub ctime_sec: i64,
    pub ctime_nsec: u32,
}

/// File metadata from either source.
#[derive(Debug)]
pub enum LsMeta {
    Std(StdMetadata),
    Vf(VfAttrs),
}

/// A failure of a file operation.
#[derive(Clone, Copy, Debug, PartialEq, Eq, Structural)]
pub struct IoFailure {
    pub kind: ErrorKind,
    /// The number that the local file system gave, if it was that which failed.
    pub raw_os_error: Option<i32>,
    /// What the backend said, if it was that which failed.
    pub backend: Option<VfError>,
}

impl IoFailure {
    /// The failure that an error of the backend is told as.
    pub fn from_backend(e: VfError) -> (r: IoFailure)
        ensures
            r == (IoFailure {
                kind: error_kind(e.fault),
                raw_os_error: None,
                backend: Some(e),
            }),
    {
        let told = vf_io_error(e);
        IoFailure { kind: told.kind, raw_os_error: None, backend: Some(told.source) }
    }
}

impl LsMeta {
    pub open spec fn len_spec(self) -> u64 {
        match self {
            LsMeta::Std(m) => m.len,
            LsMeta::Vf(v) => if v.returned.has(ATTR_SIZE) {
                v.size
            } else {
                0
            },
        }
    }

    pub open spec fn blocks_spec(self) -> u64 {
        match self {
            LsMeta::Std(m) => m.blocks,
            LsMeta::Vf(v) => if v.returned.has(ATTR_BLOCKS) {
                v.blocks
            } else {
                0
            },
        }
    }

    pub open spec fn mode_spec(self) -> u32 {
        match self {
            LsMeta::Std(m) => m.mode,
            LsMeta::Vf(v) => if v.returned.has(ATTR_MODE) {
                v.mode
            } else {
                0
            },
        }
    }

    pub open spec fn file_type_spec(self) -> LsFileType {
        match self {
            LsMeta::Std(m) => type_of_std(m.file_type),
            LsMeta::Vf(v) => type_of_code(v.ftype),
        }
    }

    pub open spec fn mtime_spec(self) -> Timestamp {
        match self {
            LsMeta::Std(m) => match m.modified {
                Some(t) => t,
                None => stamp(0, 0),
            },
            LsMeta::Vf(v) => if v.returned.has(ATTR_MTIME) {
                stamp(v.mtime_sec as int, v.mtime_nsec as int)
            } else {
                stamp(0, 0)
            },
        }
    }

    pub open spec fn atime_spec(self) -> Timestamp {
        match self {
            LsMeta::Std(m) => match m.accessed {
                Some(t) => t,
                None => stamp(0, 0),
            },
            LsMeta::Vf(v) => if v.returned.has(ATTR_ATIME) {
                stamp(v.atime_sec as int, v.atime_nsec as int)
            } else {
                stamp(0, 0)
            },
        }
    }

    pub open spec fn ctime_spec(self) -> Timestamp {
        match self {
            LsMeta::Std(m) => stamp(m.ctime_sec as int, m.ctime_nsec as int),
            LsMeta::Vf(v) => if v.returned.has(ATTR_CTIME) {
                stamp(v.ctime_sec as int, v.ctime_nsec as int)
            } else {
                stamp(0, 0)
            },
        }
    }

    /// Whether the modification time can be held.
    pub open spec fn mtime_fits(self) -> bool {
        self matches LsMeta::Vf(v) ==> (v.returned.has(ATTR_MTIME) ==> time_fits(
            v.mtime_sec as int,
            v.mtime_nsec as int,
        ))
    }

    /// Whether the access time can be held.
    pub open spec fn atime_fits(self) -> bool {
        self matches LsMeta::Vf(v) ==> (v.returned.has(ATTR_ATIME) ==> time_fits(
            v.atime_sec as int,
            v.atime_nsec as int,
        ))
    }

    /// Whether the change time can be held.
    pub open spec fn ctime_fits(self) -> bool {
        match self {
            LsMeta::Std(m) => time_fits(m.ctime_sec as int, m.ctime_nsec as int),
            LsMeta::Vf(v) => v.returned.has(ATTR_CTIME) ==> time_fits(
                v.ctime_sec as int,
                v.ctime_nsec as int,
            ),
        }
    }

    /// The time `secs` seconds and `nsecs` nanoseconds from the start of 1970.
    pub fn secs_nsecs(secs: i64, nsecs: u32) -> (r: Timestamp)
        requires
            time_fits(secs as int, nsecs as int),
        ensures
            r == stamp(secs as int, nsecs as int),
    {
        let carry: u32 = nsecs / NANOS_PER_SEC;
        Timestamp { secs: secs + carry as i64, nanos: nsecs % NANOS_PER_SEC }
    }

    pub fn len(&self) -> (r: u64)
        ensures
            r == self.len_spec(),
    {
        match self {
            LsMeta::Std(m) => m.len,
            LsMeta::Vf(v) => {
                if v.returned.contains(ATTR_SIZE) {
                    v.size
                } else {
                    0
                }
            },
        }
    }

    pub fn nlink(&self) -> (r: u64)
        ensures
            r == (match *self {
                LsMeta::Std(m) => m.nlink,
                LsMeta::Vf(v) => if v.returned.has(ATTR_NLINK) {
                    v.nlink as u64
                } else {
                    1
                },
            }),
    {
        match self {
            LsMeta::Std(m) => m.nlink,
            LsMeta::Vf(v) => {
                if v.returned.contains(ATTR_NLINK) {
                    v.nlink as u64
                } else {
                    1
                }
            },
        }
    }

    pub fn uid(&self) -> (r: u32)
        ensures
            r == (match *self {
                LsMeta::Std(m) => m.uid,
                LsMeta::Vf(v) => if v.returned.has(ATTR_UID) {
                    v.uid
                } else {
                    0
                },
            }),
    {
        match self {
            LsMeta::Std(m) => m.uid,
            LsMeta::Vf(v) => {
                if v.returned.contains(ATTR_UID) {
                    v.uid
                } else {
                    0
                }
            },
        }
    }

    pub fn gid(&self) -> (r: u32)
        ensures
            r == (match *self {
                LsMeta::Std(m) => m.gid,
                LsMeta::Vf(v) => if v.returned.has(ATTR_GID) {
                    v.gid
                } else {
                    0
                },
            }),
    {
        match self {
            LsMeta::Std(m) => m.gid,
            LsMeta::Vf(v) => {
                if v.returned.contains(ATTR_GID) {
                    v.gid
                } else {
                    0
                }
            },
        }
    }

    pub fn rdev(&self) -> (r: u64)
        ensures
            r == (match *self {
                LsMeta::Std(m) => m.rdev,
                LsMeta::Vf(v) => if v.returned.has(ATTR_RDEV) {
                    v.rdev
                } else {
                    0
                },
            }),
    {
        match self {
            LsMeta::Std(m) => m.rdev,
            LsMeta::Vf(v) => {
                if v.returned.contains(ATTR_RDEV) {
                    v.rdev
                } else {
                    0
                }
            },
        }
    }

    pub fn ino(&self) -> (r: u64)
        ensures
            r == (match *self {
                LsMeta::Std(m) => m.ino,
                LsMeta::Vf(v) => if v.returned.has(ATTR_FILEID) {
                    v.fileid
                } else {
                    0
                },
            }),
    {
        match self {
            LsMeta::Std(m) => m.ino,
            LsMeta::Vf(v) => {
                if v.returned.contains(ATTR_FILEID) {
                    v.fileid
                } else {
                    0
                }
            },
        }
    }

    pub fn blocks(&self) -> (r: u64)
        ensures
            r == self.blocks_spec(),
    {
        match self {
            LsMeta::Std(m) => m.blocks,
            LsMeta::Vf(v) => {
                if v.returned.contains(ATTR_BLOCKS) {
                    v.blocks
                } else {
                    0
                }
            },
        }
    }

    pub fn mode(&self) -> (r: u32)
        ensures
            r == self.mode_spec(),
    {
        match self {
            LsMeta::Std(m) => m.mode,
            LsMeta::Vf(v) => {
                if v.returned.contains(ATTR_MODE) {
                    v.mode
                } else {
                    0
                }
            },
        }
    }

    pub fn file_type(&self) -> (r: LsFileType)
        ensures
            r == self.file_type_spec(),
    {
        match self {
            LsMeta::Std(m) => LsFileType::from_std(m.file_type),
            LsMeta::Vf(v) => LsFileType::from_ftype(v.ftype),
        }
    }

    pub fn is_dir(&self) -> (r: bool)
        ensures
            r == (self.file_type_spec() == LsFileType::Dir),
    {
        self.file_type().is_dir()
    }

    pub fn mtime(&self) -> (r: Timestamp)
        requires
            self.mtime_fits(),
        ensures
            r == self.mtime_spec(),
    {
        match self {
            LsMeta::Std(m) => match m.modified {
                Some(t) => t,
                None => Timestamp::epoch(),
            },
            LsMeta::Vf(v) => {
                if v.returned.contains(ATTR_MTIME) {
                    Self::secs_nsecs(v.mtime_sec, v.mtime_nsec)
                } else {
                    Timestamp::epoch()
                }
            },
        }
    }

    pub fn atime(&self) -> (r: Timestamp)
        requires
            self.atime_fits(),
        ensures
            r == self.atime_spec(),
    {
        match self {
            LsMeta::Std(m) => match m.accessed {
                Some(t) => t,
                None => Timestamp::epoch(),
            },
            LsMeta::Vf(v) => {
                if v.returned.contains(ATTR_ATIME) {
                    Self::secs_nsecs(v.atime_sec, v.atime_nsec)
                } else {
                    Timestamp::epoch()
                }
            },
        }
    }

    pub fn ctime(&self) -> (r: Timestamp)
        requires
            self.ctime_fits(),
        ensures
            r == self.ctime_spec(),
    {
        match self {
            LsMeta::Std(m) => Self::secs_nsecs(m.ctime_sec, m.ctime_nsec),
            LsMeta::Vf(v) => {
                if v.returned.contains(ATTR_CTIME) {
                    Self::secs_nsecs(v.ctime_sec, v.ctime_nsec)
                } else {
                    Timestamp::epoch()
                }
            },
        }
    }

    /// The local metadata, where the entry is a local one.
    pub fn as_std_metadata(&self) -> (r: Option<&StdMetadata>)
        ensures
            r == (match self {
                LsMeta::Std(m) => Some(m),
                LsMeta::Vf(_) => None,
            }),
    {
        match self {
            LsMeta::Std(m) => Some(m),
            LsMeta::Vf(_) => None,
        }
    }

    /// The metadata that a look at a path gave.
    pub fn from_path(found: Result<StdMetadata, IoFailure>) -> (r: Result<LsMeta, IoFailure>)
        ensures
            r == (match found {
                Ok(m) => Ok::<LsMeta, IoFailure>(LsMeta::Std(m)),
                Err(e) => Err(e),
            }),
    {
        match found {
            Ok(m) => Ok(LsMeta::Std(m)),
            Err(e) => Err(e),
        }
    }
}

// ---------------------------------------------------------------------------
// Directory entries
// ---------------------------------------------------------------------------

/// What the local file system tells of a directory entry.
#[derive(Debug)]
pub struct DirEntry {
    pub path: Vec<u8>,
    pub name: Vec<u8>,
    pub file_type: Option<StdFileType>,
}

/// A directory entry from either source.
#[derive(Debug)]
pub enum LsDirEntry {
    Std(DirEntry),
    Vf { path: Vec<u8>, name: Vec<u8>, attrs: VfAttrs },
}

/// The entries of an open directory that were not handed out yet.
pub struct LsReadDir {
    /// The next entry is the last of these.
    rest: Vec<Result<LsDirEntry, IoFailure>>,
}

impl View for LsReadDir {
    type V = Seq<Result<LsDirEntry, IoFailure>>;

    closed spec fn view(&self) -> Seq<Result<LsDirEntry, IoFailure>> {
        self.rest@.reverse()
    }
}

impl LsReadDir {
    /// A directory read by the local file system, where reading an entry can fail.
    pub fn from_std(rd: Vec<Result<LsDirEntry, IoFailure>>) -> (r: LsReadDir)
        ensures
            r@ == rd@,
    {
        let ghost all = rd@;
        let rest = crate::sort::reversed(rd);
        assert(rest@.reverse() =~= all);
        LsReadDir { rest }
    }

    /// A directory that the backend listed whole.
    pub fn from_vf(entries: Vec<LsDirEntry>) -> (r: LsReadDir)
        ensures
            r@ == entries@.map_values(|e: LsDirEntry| Ok::<LsDirEntry, IoFailure>(e)),
    {
        let ghost ok = |e: LsDirEntry| Ok::<LsDirEntry, IoFailure>(e);
        let ghost all = entries@.map_values(ok);
        let mut entries = entries;
        let mut rest: Vec<Result<LsDirEntry, IoFailure>> = Vec::new();
        assert(entries@.map_values(ok) + rest@.reverse() =~= all);
        while entries.len() > 0
            invariant
                ok == (|e: LsDirEntry| Ok::<LsDirEntry, IoFailure>(e)),
                all == entries@.map_values(ok) + rest@.reverse(),
            decreases entries@.len(),
        {
            let ghost before = entries@;
            if let Some(e) = entries.pop() {
                let ghost sofar = rest@;
                rest.push(Ok(e));
                assert(rest@.reverse() =~= seq![ok(e)] + sofar.reverse());
                assert(before =~= entries@.push(e));
                assert(entries@.map_values(ok) + rest@.reverse() =~= before.map_values(ok)
                    + sofar.reverse());
            }
        }
        assert(rest@.reverse() =~= all);
        LsReadDir { rest }
    }

    /// The next entry, or the failure to read it.
    pub fn next(&mut self) -> (r: Option<Result<LsDirEntry, IoFailure>>)
        ensures
            old(self)@.len() == 0 ==> r is None && final(self)@ == old(self)@,
            old(self)@.len() > 0 ==> r == Some(old(self)@[0]) && final(self)@
                == old(self)@.drop_first(),
    {
        let ghost before = self.rest@;
        let r = self.rest.pop();
        proof {
            if before.len() > 0 {
                assert(self.rest@.reverse() =~= before.reverse().drop_first());
            } else {
                assert(self.rest@ =~= before);
            }
        }
        r
    }
}

} // verus!
