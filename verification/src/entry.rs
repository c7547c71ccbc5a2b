//! A path to be listed, with what was found out about it so far.
use crate::attrs::{AttrMask, VfAttrs};
use crate::config::{Config, Dereference};
use crate::error::{errno, errno_of, LsError};
use crate::meta::{
    type_of_code, type_of_std, DirEntry, IoFailure, LsFileType, LsMeta, StdFileType, StdMetadata,
};
use crate::path::{copy_bytes, file_name, file_name_spec};
use vstd::prelude::*;

verus! {

// ---------------------------------------------------------------------------
// Copies of metadata
// ---------------------------------------------------------------------------

/// Whether two reports of the backend say the same.
pub open spec fn same_attrs(a: VfAttrs, b: VfAttrs) -> bool {
    &&& match (a.path, b.path) {
        (Some(p), Some(q)) => p@ == q@,
        (None, None) => true,
        _ => false,
    }
    &&& a.ftype == b.ftype
    &&& a.returned == b.returned
    &&& a.size == b.size
    &&& a.nlink == b.nlink
    &&& a.uid == b.uid
    &&& a.gid == b.gid
    &&& a.rdev == b.rdev
    &&& a.fileid == b.fileid
    &&& a.blocks == b.blocks
    &&& a.mode == b.mode
    &&& a.atime_sec == b.atime_sec
    &&& a.atime_nsec == b.atime_nsec
    &&& a.mtime_sec == b.mtime_sec
    &&& a.mtime_nsec == b.mtime_nsec
    &&& a.ctime_sec == b.ctime_sec
    &&& a.ctime_nsec == b.ctime_nsec
}

/// Whether two pieces of metadata say the same.
pub open spec fn same_meta(a: LsMeta, b: LsMeta) -> bool {
    match (a, b) {
        (LsMeta::Std(x), LsMeta::Std(y)) => x == y,
        (LsMeta::Vf(x), LsMeta::Vf(y)) => same_attrs(x, y),
        _ => false,
    }
}

impl VfAttrs {
    /// A copy of the report.
    pub fn duplicate(&self) -> (r: VfAttrs)
        ensures
            same_attrs(*self, r),
    {
        let path = match &self.path {
            Some(p) => Some(copy_bytes(p.as_slice())),
            None => None,
        };
        VfAttrs {
            path,
            ftype: self.ftype,
            returned: AttrMask { bits: self.returned.bits },
            size: self.size,
            nlink: self.nlink,
            uid: self.uid,
            gid: self.gid,
            rdev: self.rdev,
            fileid: self.fileid,
            blocks: self.blocks,
            mode: self.mode,
            atime_sec: self.atime_sec,
            atime_nsec: self.atime_nsec,
            mtime_sec: self.mtime_sec,
            mtime_nsec: self.mtime_nsec,
            ctime_sec: self.ctime_sec,
            ctime_nsec: self.ctime_nsec,
        }
    }
}

impl LsMeta {
    /// A copy of the metadata.
    pub fn duplicate(&self) -> (r: LsMeta)
        ensures
            same_meta(*self, r),
    {
        match self {
            LsMeta::Std(m) => LsMeta::Std(*m),
            LsMeta::Vf(v) => LsMeta::Vf(v.duplicate()),
        }
    }
}

// ---------------------------------------------------------------------------
// Entries
// ---------------------------------------------------------------------------

/// The name that an entry is shown by: its path, or another name.
#[derive(Debug)]
pub enum PathDataDisplayName {
    SelfReferential,
    Custom(Vec<u8>),
}

/// A path with its data. What takes a look at the file system is kept once it
/// was read: nothing yet, or what the look gave, if it gave anything.
#[derive(Debug)]
pub struct PathData {
    pub md: Option<Option<LsMeta>>,
    pub ft: Option<Option<LsFileType>>,
    /// Whether the directory entry can still be asked for the metadata.
    pub has_dir_entry: bool,
    pub security_context: Option<String>,
    pub display_name: PathDataDisplayName,
    pub p_buf: Vec<u8>,
    pub must_dereference: bool,
    pub command_line: bool,
    pub is_dot_dir: bool,
}

/// What is handed to those who want entries as data.
#[derive(Debug)]
pub struct EntryInfo {
    pub path: Vec<u8>,
    pub display_name: Vec<u8>,
    pub file_type: Option<LsFileType>,
    pub metadata: Option<LsMeta>,
    pub security_context: String,
    pub command_line: bool,
    pub must_dereference: bool,
}

/// Whether a symbolic link at the path is to be followed. `target` is what
/// following the path finds. A path on the command line that ends in no name of
/// its own (`.`, `..`, `/`) stands for the directory itself.
pub open spec fn follows(
    dereference: Dereference,
    command_line: bool,
    path: Seq<u8>,
    target: Option<StdMetadata>,
) -> bool {
    ||| match dereference {
        Dereference::All => true,
        Dereference::Args => command_line,
        Dereference::DirArgs => command_line && (target matches Some(t) && type_of_std(t.file_type)
            == LsFileType::Dir),
        Dereference::Never => false,
    }
    ||| command_line && file_name_spec(path) is None
}

/// The metadata that is known at once: that of the file a followed directory
/// entry leads to.
pub open spec fn first_md(has_entry: bool, deref: bool, target: Option<StdMetadata>) -> Option<
    Option<LsMeta>,
> {
    if has_entry && deref {
        match target {
            Some(t) => Some(Some(LsMeta::Std(t))),
            None => None,
        }
    } else {
        None
    }
}

/// The type that is known at once: that of the file a followed directory entry
/// leads to, or else the one that the directory entry tells.
pub open spec fn first_ft(
    has_entry: bool,
    entry_type: Option<StdFileType>,
    deref: bool,
    target: Option<StdMetadata>,
) -> Option<Option<LsFileType>> {
    if !has_entry {
        None
    } else if deref && target is Some {
        Some(Some(type_of_std(target->0.file_type)))
    } else {
        match entry_type {
            Some(f) => Some(Some(type_of_std(f))),
            None => None,
        }
    }
}

/// Whether following the path has to be tried before the entry is made.
pub open spec fn target_matters(
    dereference: Dereference,
    command_line: bool,
    path: Seq<u8>,
    has_entry: bool,
) -> bool {
    ||| dereference == Dereference::DirArgs && command_line
    ||| has_entry && follows(dereference, command_line, path, None)
}

/// Where following the path need not be tried, what it would find changes nothing.
pub proof fn law_target_matters(
    dereference: Dereference,
    command_line: bool,
    path: Seq<u8>,
    has_entry: bool,
    entry_type: Option<StdFileType>,
    target: Option<StdMetadata>,
)
    requires
        !target_matters(dereference, command_line, path, has_entry),
    ensures
        ({
            let d = follows(dereference, command_line, path, target);
            let n = follows(dereference, command_line, path, None);
            &&& d == n
            &&& first_md(has_entry, d, target) == first_md(has_entry, n, None)
            &&& first_ft(has_entry, entry_type, d, target) == first_ft(has_entry, entry_type, n, None)
        }),
{
}

/// How the metadata of an entry can be had.
#[derive(Clone, Copy, Debug, PartialEq, Eq, Structural)]
pub enum MetaRequest {
    /// It was read.
    Known,
    /// Ask the directory entry.
    FromDirEntry,
    /// Look at the path, following links or not.
    FromPath { dereference: bool },
}

/// What came of asking for metadata.
#[derive(Clone, Copy, Debug, PartialEq, Eq, Structural)]
pub enum MetaReply {
    /// What the directory entry gave, if anything.
    FromDirEntry(Option<StdMetadata>),
    /// The path was found.
    Found(StdMetadata),
    /// The path could not be looked at. Where a followed link leads to a bad
    /// descriptor and can be read, `link_target` is what a look at the place
    /// that it names, not following links, gave.
    Failed { failure: IoFailure, link_target: Option<Option<StdMetadata>> },
}

/// Whether a failure is that of a descriptor that is not open.
pub open spec fn is_bad_descriptor(failure: IoFailure) -> bool {
    errno_of(failure) == 9
}

/// Whether a failed look at a followed link is to be followed by one at the link.
pub fn wants_link(must_dereference: bool, failure: IoFailure) -> (r: bool)
    ensures
        r == (must_dereference && is_bad_descriptor(failure)),
{
    must_dereference && errno(failure) == 9
}

pub open spec fn wrap_meta(m: Option<StdMetadata>) -> Option<LsMeta> {
    match m {
        Some(t) => Some(LsMeta::Std(t)),
        None => None,
    }
}

fn wrapped(m: Option<StdMetadata>) -> (r: Option<LsMeta>)
    ensures
        r == wrap_meta(m),
{
    match m {
        Some(t) => Some(LsMeta::Std(t)),
        None => None,
    }
}

impl PathData {
    /// The name that is shown.
    pub open spec fn shown(self) -> Seq<u8> {
        match self.display_name {
            PathDataDisplayName::SelfReferential => self.p_buf@,
            PathDataDisplayName::Custom(name) => name@,
        }
    }

    /// The name of the file.
    pub open spec fn name(self) -> Seq<u8> {
        match self.display_name {
            PathDataDisplayName::SelfReferential => match file_name_spec(self.p_buf@) {
                Some(name) => name,
                None => self.p_buf@,
            },
            PathDataDisplayName::Custom(name) => name@,
        }
    }

    /// The metadata, as far as it was read.
    pub open spec fn known_md(self) -> Option<LsMeta> {
        match self.md {
            Some(m) => m,
            None => None,
        }
    }

    /// The type, as far as it was read.
    pub open spec fn known_ft(self) -> Option<LsFileType> {
        match self.ft {
            Some(t) => t,
            None => match self.known_md() {
                Some(m) => Some(m.file_type_spec()),
                None => None,
            },
        }
    }

    /// The entry for a path. `target` is what following the path finds; it
    /// matters only where `needs_target` says so.
    pub fn new(
        p_buf: Vec<u8>,
        dir_entry: Option<DirEntry>,
        file_name: Option<Vec<u8>>,
        config: &Config,
        command_line: bool,
        is_dot_dir: bool,
        target: Option<StdMetadata>,
    ) -> (r: PathData)
        ensures
            r.p_buf == p_buf,
            r.command_line == command_line,
            r.is_dot_dir == is_dot_dir,
            r.must_dereference == follows(config.dereference, command_line, p_buf@, target),
            r.has_dir_entry == (dir_entry is Some),
            r.security_context is None,
            r.md == first_md(dir_entry is Some, r.must_dereference, target),
            r.ft == first_ft(
                dir_entry is Some,
                match dir_entry {
                    Some(de) => de.file_type,
                    None => None,
                },
                r.must_dereference,
                target,
            ),
            match file_name {
                Some(n) => r.display_name == PathDataDisplayName::Custom(n),
                None => if command_line {
                    r.display_name is SelfReferential
                } else {
                    r.display_name matches PathDataDisplayName::Custom(n) && n@ == (
                    match dir_entry {
                        Some(de) => de.name@,
                        None => Seq::empty(),
                    })
                },
            },
    {
        let wanted = match config.dereference {
            Dereference::All => true,
            Dereference::Args => command_line,
            Dereference::DirArgs => command_line && (match target {
                Some(t) => LsFileType::from_std(t.file_type).is_dir(),
                None => false,
            }),
            Dereference::Never => false,
        };
        let must_dereference = wanted || (command_line && crate::path::file_name(
            p_buf.as_slice(),
        ).is_none());
        let mut md: Option<Option<LsMeta>> = None;
        let mut ft: Option<Option<LsFileType>> = None;
        let has_dir_entry = dir_entry.is_some();
        if let Some(de) = &dir_entry {
            if must_dereference {
                if let Some(t) = target {
                    ft = Some(Some(LsFileType::from_std(t.file_type)));
                    md = Some(Some(LsMeta::Std(t)));
                }
            }
            if ft.is_none() {
                if let Some(f) = de.file_type {
                    ft = Some(Some(LsFileType::from_std(f)));
                }
            }
        }
        let display_name = match file_name {
            Some(n) => PathDataDisplayName::Custom(n),
            None => {
                if command_line {
                    PathDataDisplayName::SelfReferential
                } else {
                    match dir_entry {
                        Some(de) => PathDataDisplayName::Custom(de.name),
                        None => {
                            let none: Vec<u8> = Vec::new();
                            assert(none@ =~= Seq::<u8>::empty());
                            PathDataDisplayName::Custom(none)
                        },
                    }
                }
            },
        };
        PathData {
            md,
            ft,
            has_dir_entry,
            security_context: None,
            display_name,
            p_buf,
            must_dereference,
            command_line,
            is_dot_dir,
        }
    }

    /// Whether following `path` has to be tried before its entry is made.
    pub fn needs_target(path: &[u8], has_entry: bool, config: &Config, command_line: bool) -> (r:
        bool)
        ensures
            r == target_matters(config.dereference, command_line, path@, has_entry),
    {
        let dir_args = match config.dereference {
            Dereference::DirArgs => command_line,
            _ => false,
        };
        let followed = match config.dereference {
            Dereference::All => true,
            Dereference::Args => command_line,
            _ => false,
        };
        dir_args || (has_entry && (followed || (command_line && file_name(path).is_none())))
    }

    /// The entry for a file that the backend listed. Where links are followed
    /// the local file system is asked instead.
    pub fn from_vf(path: Vec<u8>, name: Vec<u8>, attrs: VfAttrs, config: &Config) -> (r: PathData)
        ensures
            r.p_buf == path,
            r.display_name == PathDataDisplayName::Custom(name),
            r.must_dereference == (config.dereference == Dereference::All),
            r.md == (if config.dereference == Dereference::All {
                None
            } else {
                Some(Some(LsMeta::Vf(attrs)))
            }),
            r.ft == (if config.dereference == Dereference::All {
                None
            } else {
                Some(Some(type_of_code(attrs.ftype)))
            }),
            !r.has_dir_entry,
            r.security_context is None,
            !r.command_line,
            !r.is_dot_dir,
    {
        let ftype: u32 = attrs.ftype;
        let must_dereference = match config.dereference {
            Dereference::All => true,
            _ => false,
        };
        let (md, ft) = if must_dereference {
            (None, None)
        } else {
            (Some(Some(LsMeta::Vf(attrs))), Some(Some(LsFileType::from_ftype(ftype))))
        };
        PathData {
            md,
            ft,
            has_dir_entry: false,
            security_context: None,
            display_name: PathDataDisplayName::Custom(name),
            p_buf: path,
            must_dereference,
            command_line: false,
            is_dot_dir: false,
        }
    }

    /// Where the metadata is to be had from.
    pub fn metadata_request(&self) -> (r: MetaRequest)
        ensures
            r == (if self.md is Some {
                MetaRequest::Known
            } else if !self.must_dereference && self.has_dir_entry {
                MetaRequest::FromDirEntry
            } else {
                MetaRequest::FromPath { dereference: self.must_dereference }
            }),
    {
        if self.md.is_some() {
            MetaRequest::Known
        } else if !self.must_dereference && self.has_dir_entry {
            MetaRequest::FromDirEntry
        } else {
            MetaRequest::FromPath { dereference: self.must_dereference }
        }
    }

    /// Takes in what asking for the metadata gave. What was read before stays.
    /// The error, if any, is to be reported.
    pub fn metadata_reply(&mut self, reply: MetaReply) -> (r: Option<LsError>)
        ensures
            final(self).ft == old(self).ft,
            final(self).security_context == old(self).security_context,
            final(self).display_name == old(self).display_name,
            final(self).p_buf == old(self).p_buf,
            final(self).must_dereference == old(self).must_dereference,
            final(self).command_line == old(self).command_line,
            final(self).is_dot_dir == old(self).is_dot_dir,
            old(self).md is Some ==> *final(self) == *old(self) && r is None,
            old(self).md is None ==> match reply {
                MetaReply::FromDirEntry(m) => {
                    &&& final(self).md == Some(wrap_meta(m))
                    &&& !final(self).has_dir_entry
                    &&& r is None
                },
                MetaReply::Found(m) => {
                    &&& final(self).md == Some(Some(LsMeta::Std(m)))
                    &&& final(self).has_dir_entry == old(self).has_dir_entry
                    &&& r is None
                },
                MetaReply::Failed { failure, link_target } => {
                    &&& final(self).has_dir_entry == old(self).has_dir_entry
                    &&& if old(self).must_dereference && is_bad_descriptor(failure) && link_target
                        is Some {
                        final(self).md == Some(wrap_meta(link_target->0)) && r is None
                    } else {
                        &&& final(self).md == Some(None::<LsMeta>)
                        &&& r matches Some(LsError::IOErrorContext(path, e, on_line))
                        &&& path@ == old(self).p_buf@
                        &&& e == failure
                        &&& on_line == old(self).command_line
                    }
                },
            },
    {
        if self.md.is_some() {
            return None;
        }
        match reply {
            MetaReply::FromDirEntry(m) => {
                self.has_dir_entry = false;
                self.md = Some(wrapped(m));
                None
            },
            MetaReply::Found(m) => {
                self.md = Some(Some(LsMeta::Std(m)));
                None
            },
            MetaReply::Failed { failure, link_target } => {
                if wants_link(self.must_dereference, failure) {
                    if let Some(t) = link_target {
                        self.md = Some(wrapped(t));
                        return None;
                    }
                }
                self.md = Some(None);
                Some(
                    LsError::IOErrorContext(
                        copy_bytes(self.p_buf.as_slice()),
                        failure,
                        self.command_line,
                    ),
                )
            },
        }
    }

    /// The metadata that was read.
    pub fn metadata(&self) -> (r: Option<&LsMeta>)
        ensures
            match r {
                Some(m) => self.known_md() == Some(*m),
                None => self.known_md() is None,
            },
    {
        match &self.md {
            Some(Some(m)) => Some(m),
            _ => None,
        }
    }

    /// Whether the type can be told only once the metadata was read.
    pub fn type_needs_metadata(&self) -> (r: bool)
        ensures
            r == (self.ft is None && self.md is None),
    {
        self.ft.is_none() && self.md.is_none()
    }

    /// The file type, as far as it was read.
    pub fn file_type(&self) -> (r: Option<LsFileType>)
        ensures
            r == self.known_ft(),
    {
        match self.ft {
            Some(t) => t,
            None => match self.metadata() {
                Some(m) => Some(m.file_type()),
                None => None,
            },
        }
    }

    /// Whether the entry is a followed link that leads nowhere.
    pub fn is_dangling_link(&self) -> (r: bool)
        ensures
            r == (self.must_dereference && self.known_ft() is None && self.known_md() is None),
    {
        self.must_dereference && self.file_type().is_none() && self.metadata().is_none()
    }

    /// Whether the entry is a regular file that someone may execute.
    pub fn is_executable_file(&self) -> (r: bool)
        ensures
            r == (self.known_ft() == Some(LsFileType::File) && (self.known_md() matches Some(m)
                && may_execute(m.mode_spec()))),
    {
        let is_file = match self.file_type() {
            Some(t) => t.is_file(),
            None => false,
        };
        is_file && (match self.metadata() {
            Some(m) => file_is_executable(m),
            None => false,
        })
    }

    pub fn path(&self) -> (r: &[u8])
        ensures
            r@ == self.p_buf@,
    {
        self.p_buf.as_slice()
    }

    pub fn display_name(&self) -> (r: &[u8])
        ensures
            r@ == self.shown(),
    {
        match &self.display_name {
            PathDataDisplayName::SelfReferential => self.p_buf.as_slice(),
            PathDataDisplayName::Custom(name) => name.as_slice(),
        }
    }

    pub fn file_name(&self) -> (r: &[u8])
        ensures
            r@ == self.name(),
    {
        match &self.display_name {
            PathDataDisplayName::SelfReferential => match file_name(self.p_buf.as_slice()) {
                Some(name) => name,
                None => self.p_buf.as_slice(),
            },
            PathDataDisplayName::Custom(name) => name.as_slice(),
        }
    }

    /// The security context: the one that was read before, or else `fetched`,
    /// which is kept.
    pub fn security_context(&mut self, fetched: &str) -> (r: String)
        ensures
            r@ == (match old(self).security_context {
                Some(s) => s@,
                None => fetched@,
            }),
            final(self).security_context matches Some(s) && s@ == r@,
            final(self).md == old(self).md,
            final(self).ft == old(self).ft,
            final(self).has_dir_entry == old(self).has_dir_entry,
            final(self).display_name == old(self).display_name,
            final(self).p_buf == old(self).p_buf,
            final(self).must_dereference == old(self).must_dereference,
            final(self).command_line == old(self).command_line,
            final(self).is_dot_dir == old(self).is_dot_dir,
    {
        if let Some(s) = &self.security_context {
            return s.clone();
        }
        self.security_context = Some(fetched.to_owned());
        fetched.to_owned()
    }

    /// The entry as data.
    pub fn to_entry_info(&mut self, fetched: &str) -> (r: EntryInfo)
        ensures
            r.path@ == old(self).p_buf@,
            r.display_name@ == old(self).shown(),
            r.file_type == old(self).known_ft(),
            match (r.metadata, old(self).known_md()) {
                (Some(a), Some(b)) => same_meta(b, a),
                (None, None) => true,
                _ => false,
            },
            r.security_context@ == (match old(self).security_context {
                Some(s) => s@,
                None => fetched@,
            }),
            r.command_line == old(self).command_line,
            r.must_dereference == old(self).must_dereference,
            final(self).security_context matches Some(s) && s@ == r.security_context@,
            final(self).md == old(self).md,
            final(self).ft == old(self).ft,
            final(self).has_dir_entry == old(self).has_dir_entry,
            final(self).display_name == old(self).display_name,
            final(self).p_buf == old(self).p_buf,
            final(self).must_dereference == old(self).must_dereference,
            final(self).command_line == old(self).command_line,
            final(self).is_dot_dir == old(self).is_dot_dir,
    {
        let metadata = match self.metadata() {
            Some(m) => Some(m.duplicate()),
            None => None,
        };
        let file_type = self.file_type();
        let path = copy_bytes(self.p_buf.as_slice());
        let display_name = copy_bytes(self.display_name());
        let security_context = self.security_context(fetched);
        EntryInfo {
            path,
            display_name,
            file_type,
            metadata,
            security_context,
            command_line: self.command_line,
            must_dereference: self.must_dereference,
        }
    }
}

// ---------------------------------------------------------------------------
// Permission to execute
// ---------------------------------------------------------------------------

/// Reads `libc::S_IXUSR`. Not proved: its value, which every system gives it.
#[verifier::external_body]
fn s_ixusr() -> (r: u32)
    ensures
        r == 0o100,
{
    libc::S_IXUSR as u32
}

/// Reads `libc::S_IXGRP`. Not proved: its value, which every system gives it.
#[verifier::external_body]
fn s_ixgrp() -> (r: u32)
    ensures
        r == 0o010,
{
    libc::S_IXGRP as u32
}

/// Reads `libc::S_IXOTH`. Not proved: its value, which every system gives it.
#[verifier::external_body]
fn s_ixoth() -> (r: u32)
    ensures
        r == 0o001,
{
    libc::S_IXOTH as u32
}

/// Whether a mode lets its owner, its group or others execute the file.
pub open spec fn may_execute(mode: u32) -> bool {
    mode & 0o111 != 0
}

/// Whether anyone may execute the file.
pub fn file_is_executable(md: &LsMeta) -> (r: bool)
    ensures
        r == may_execute(md.mode_spec()),
{
    let bits: u32 = s_ixusr() | s_ixgrp() | s_ixoth();
    assert(0o100u32 | 0o010u32 | 0o001u32 == 0o111u32) by (bit_vector);
    md.mode() & bits != 0
}

} // verus!
