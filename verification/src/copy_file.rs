//! One file copied through a backend: by the server, or read from it and
//! written to the local file system. The caller does what `step` asks for and
//! hands the outcome to `advance`.
use crate::attrs::{error_kind, vf_io_error, VfError, VfIoError};
use crate::meta::IoFailure;
use crate::mount::{mounted_spec, mounted_vf_path, ImplChoice, Mount, MountView, VfPathError};
use crate::path::{components, copy_bytes, same_path};
use crate::server_copy::PreparedCopy;
use vstd::prelude::*;

verus! {

/// How many bytes are read at a time.
pub const READ_SIZE: usize = 1_048_576;

/// The mode of a file that is created: its owner alone may read and write it.
pub const CREATE_MODE: u32 = 0o600;

/// The flags that open a file for reading alone, on Linux.
pub const READ_ONLY: i32 = 0;

/// Reads `libc::O_RDONLY`. Not proved: its value, which it has on Linux, where the
/// mounts are.
#[verifier::external_body]
fn o_rdonly() -> (r: i32)
    ensures
        r == READ_ONLY,
{
    libc::O_RDONLY
}

/// By which way a file was copied.
#[derive(Clone, Copy, Debug, PartialEq, Eq, Structural)]
pub enum Method {
    /// The server copied it in a batch.
    BatchedServerCopy,
    /// The server copied it.
    ServerCopy,
    /// It was read from the server.
    ClientRead,
}

impl Method {
    pub open spec fn name_spec(self) -> Seq<char> {
        match self {
            Method::BatchedServerCopy => "vfsi-batched-server-copy"@,
            Method::ServerCopy => "vfsi-server-copy"@,
            Method::ClientRead => "vfsi-client-read"@,
        }
    }

    /// The name by which the method is told to the user.
    pub fn name(self) -> (r: &'static str)
        ensures
            r@ == self.name_spec(),
    {
        match self {
            Method::BatchedServerCopy => "vfsi-batched-server-copy",
            Method::ServerCopy => "vfsi-server-copy",
            Method::ClientRead => "vfsi-client-read",
        }
    }
}

/// Why a copy failed.
#[derive(Clone, Copy, Debug, PartialEq, Eq, Structural)]
pub enum CopyFault {
    Io(IoFailure),
    Backend(VfIoError),
    Path(VfPathError),
    /// No backend is chosen.
    Disabled,
}

// ---------------------------------------------------------------------------
// The course as a value
// ---------------------------------------------------------------------------

/// What is waited for.
#[verifier::ext_equal]
pub enum At {
    /// A backend for the mount of the source.
    Connecting,
    /// The copy that the server may have made before.
    TakingPrepared,
    Renaming(Seq<u8>),
    Discarding(Seq<u8>),
    CreatingForServer,
    LocatingSource,
    /// The server's name of the source is known.
    LocatingDest(Seq<u8>),
    /// The server's names of source and destination are known.
    ServerCopying(Seq<u8>, Seq<u8>),
    /// The contents that may have been read ahead.
    TakingPrefetched,
    CreatingForContents(Seq<u8>),
    WritingContents(Seq<u8>),
    LocatingForRead,
    Opening(Seq<u8>),
    CreatingForRead,
    Reading,
    /// Bytes that were read, and whether they are the last.
    WritingChunk(Seq<u8>, bool),
    /// The fault that ended the reading, if one did.
    Closing(Option<CopyFault>),
    /// The file is not copied by a backend.
    Declined,
    Copied(Method),
    Failed(CopyFault),
}

/// Where a copy stands.
#[verifier::ext_equal]
pub struct Course {
    pub source: Seq<u8>,
    pub dest: Seq<u8>,
    /// The mount of the source, where it lies on one.
    pub source_mount: Option<MountView>,
    /// The mount of the destination, where it lies on one.
    pub dest_mount: Option<MountView>,
    /// Whether the server may be asked to copy.
    pub enabled: bool,
    /// The mount that the backend serves, and whether it can copy.
    pub context: Option<(MountView, bool)>,
    /// What was read and written so far.
    pub written: Seq<u8>,
    pub at: At,
}

/// What the caller is asked to do.
#[verifier::ext_equal]
pub enum Ask {
    Connect,
    TakePrepared(Seq<u8>),
    /// Move the first to the second.
    Rename(Seq<u8>, Seq<u8>),
    Discard(Seq<u8>),
    /// Create the file with this mode, or empty it.
    Create(Seq<u8>, u32),
    Canonicalize(Seq<u8>),
    /// Have the server copy the first to the second.
    ServerCopy(Seq<u8>, Seq<u8>),
    TakePrefetched(Seq<u8>),
    Write(Seq<u8>),
    /// Open with these flags and this mode.
    Open(Seq<u8>, i32, u32),
    /// Read so many bytes from this offset on.
    Read(int, int),
    Close,
    /// Done: the method, or none where no backend copied.
    Finished(Result<Option<Method>, CopyFault>),
}

/// What came of it.
#[verifier::ext_equal]
pub enum Answer {
    Done,
    Fault(CopyFault),
    Connected(MountView, bool),
    /// The destination and the temporary file of a prepared copy.
    Prepared(Option<(Seq<u8>, Seq<u8>)>),
    Prefetched(Option<Seq<u8>>),
    Canonical(Seq<u8>),
    Data(Seq<u8>, bool),
}

/// Whether the server holds both files and may copy.
pub open spec fn on_one_server(c: Course) -> bool {
    c.enabled && (c.dest_mount matches Some(d) && c.source_mount matches Some(s) && d.server
        == s.server)
}

/// Where a copy starts that the server did not prepare.
pub open spec fn unprepared(c: Course) -> At {
    if on_one_server(c) {
        At::CreatingForServer
    } else {
        At::TakingPrefetched
    }
}

/// How a copy goes on. An answer to what was not asked changes nothing.
pub open spec fn after(c: Course, answer: Answer) -> Course {
    match (c.at, answer) {
        (At::Connecting, Answer::Connected(mount, copies)) => Course {
            context: Some((mount, copies)),
            at: At::TakingPrepared,
            ..c
        },
        (At::TakingPrepared, Answer::Prepared(Some((dest, temp)))) => Course {
            at: if components(dest) == components(c.dest) {
                At::Renaming(temp)
            } else {
                At::Discarding(temp)
            },
            ..c
        },
        (At::TakingPrepared, Answer::Prepared(None)) => Course { at: unprepared(c), ..c },
        (At::Renaming(_), Answer::Done) => Course { at: At::Copied(Method::BatchedServerCopy), ..c },
        (At::Discarding(_), Answer::Done) => Course { at: unprepared(c), ..c },
        (At::Discarding(_), Answer::Fault(_)) => Course { at: unprepared(c), ..c },
        (At::CreatingForServer, Answer::Done) => Course { at: At::LocatingSource, ..c },
        (At::LocatingSource, Answer::Canonical(path)) => Course {
            at: match mounted_spec(path, c.source_mount->0) {
                Some(name) => At::LocatingDest(name),
                None => At::Failed(CopyFault::Path(VfPathError::OutsideMount)),
            },
            ..c
        },
        (At::LocatingDest(source), Answer::Canonical(path)) => Course {
            at: match mounted_spec(path, c.dest_mount->0) {
                Some(name) => if c.context matches Some((_, copies)) && copies {
                    At::ServerCopying(source, name)
                } else {
                    At::TakingPrefetched
                },
                None => At::Failed(CopyFault::Path(VfPathError::OutsideMount)),
            },
            ..c
        },
        (At::ServerCopying(_, _), Answer::Done) => Course { at: At::Copied(Method::ServerCopy), ..c },
        (At::ServerCopying(_, _), Answer::Fault(_)) => Course { at: At::TakingPrefetched, ..c },
        (At::TakingPrefetched, Answer::Prefetched(Some(contents))) => Course {
            at: At::CreatingForContents(contents),
            ..c
        },
        (At::TakingPrefetched, Answer::Prefetched(None)) => Course { at: At::LocatingForRead, ..c },
        (At::CreatingForContents(contents), Answer::Done) => Course {
            at: At::WritingContents(contents),
            ..c
        },
        (At::WritingContents(contents), Answer::Done) => Course {
            written: contents,
            at: At::Copied(Method::ClientRead),
            ..c
        },
        (At::LocatingForRead, Answer::Canonical(path)) => Course {
            at: match mounted_spec(path, (c.context->0).0) {
                Some(name) => At::Opening(name),
                None => At::Failed(CopyFault::Path(VfPathError::OutsideMount)),
            },
            ..c
        },
        (At::Opening(_), Answer::Done) => Course { at: At::CreatingForRead, ..c },
        (At::CreatingForRead, Answer::Done) => Course { at: At::Reading, ..c },
        (At::Reading, Answer::Data(data, last)) => Course { at: At::WritingChunk(data, last), ..c },
        (At::WritingChunk(data, last), Answer::Done) => Course {
            written: c.written + data,
            at: if last {
                At::Closing(None)
            } else {
                At::Reading
            },
            ..c
        },
        (At::Reading, Answer::Fault(e)) => Course { at: At::Closing(Some(e)), ..c },
        (At::WritingChunk(_, _), Answer::Fault(e)) => Course { at: At::Closing(Some(e)), ..c },
        (At::Closing(None), Answer::Done) => Course { at: At::Copied(Method::ClientRead), ..c },
        (At::Closing(Some(e)), Answer::Done) => Course { at: At::Failed(e), ..c },
        (At::Closing(Some(e)), Answer::Fault(_)) => Course { at: At::Failed(e), ..c },
        (At::Declined, _) => c,
        (At::Copied(_), _) => c,
        (At::Failed(_), _) => c,
        (_, Answer::Fault(e)) => if c.at is TakingPrepared || c.at is TakingPrefetched {
            c
        } else {
            Course { at: At::Failed(e), ..c }
        },
        _ => c,
    }
}

/// What is to be done where a copy stands.
pub open spec fn asks(c: Course) -> Ask {
    match c.at {
        At::Connecting => Ask::Connect,
        At::TakingPrepared => Ask::TakePrepared(c.source),
        At::Renaming(temp) => Ask::Rename(temp, c.dest),
        At::Discarding(temp) => Ask::Discard(temp),
        At::CreatingForServer => Ask::Create(c.dest, CREATE_MODE),
        At::LocatingSource => Ask::Canonicalize(c.source),
        At::LocatingDest(_) => Ask::Canonicalize(c.dest),
        At::ServerCopying(source, dest) => Ask::ServerCopy(source, dest),
        At::TakingPrefetched => Ask::TakePrefetched(c.source),
        At::CreatingForContents(_) => Ask::Create(c.dest, CREATE_MODE),
        At::WritingContents(contents) => Ask::Write(contents),
        At::LocatingForRead => Ask::Canonicalize(c.source),
        At::Opening(path) => Ask::Open(path, READ_ONLY, 0),
        At::CreatingForRead => Ask::Create(c.dest, CREATE_MODE),
        At::Reading => Ask::Read(c.written.len() as int, READ_SIZE as int),
        At::WritingChunk(data, _) => Ask::Write(data),
        At::Closing(_) => Ask::Close,
        At::Declined => Ask::Finished(Ok(None)),
        At::Copied(method) => Ask::Finished(Ok(Some(method))),
        At::Failed(e) => Ask::Finished(Err(e)),
    }
}

/// What holds of every copy on its way.
pub open spec fn sane(c: Course) -> bool {
    &&& !(c.at is Declined) ==> c.source_mount is Some
    &&& !(c.at is Copied) ==> c.written.len() <= u64::MAX
    &&& match c.at {
        At::Connecting | At::Declined | At::Copied(_) | At::Failed(_) => true,
        At::CreatingForServer
        | At::LocatingSource
        | At::LocatingDest(_)
        | At::ServerCopying(_, _) => c.context is Some && c.dest_mount is Some,
        At::WritingChunk(data, _) => c.context is Some && c.written.len() + data.len() <= u64::MAX,
        _ => c.context is Some,
    }
}

/// Whether the source is open on the server and being read.
pub open spec fn holds_source(at: At) -> bool {
    at is Reading || at is WritingChunk || at is Closing
}

/// Once reading began, the source is closed before anything else can follow,
/// whatever goes wrong; and the reading ends by closing it alone.
pub proof fn law_source_is_closed(c: Course, answer: Answer)
    requires
        holds_source(c.at),
    ensures
        holds_source(after(c, answer).at) || asks(c) is Close,
{
}

/// A fault that ends the reading is what the copy fails with, whatever closing
/// the source gives; and closing is the only thing left that can fail.
pub proof fn law_reading_fault_is_told(c: Course, answer: Answer)
    requires
        c.at is Closing,
        answer is Done || answer is Fault,
    ensures
        c.at matches At::Closing(Some(e)) ==> after(c, answer).at == At::Failed(e),
        c.at == At::Closing(None::<CopyFault>) ==> match answer {
            Answer::Fault(e) => after(c, answer).at == At::Failed(e),
            _ => after(c, answer).at == At::Copied(Method::ClientRead),
        },
{
}

/// A server that cannot or will not copy never fails the copy: the client
/// copies instead.
pub proof fn law_refused_server_copy_falls_back(c: Course, e: CopyFault)
    requires
        c.at is ServerCopying,
    ensures
        after(c, Answer::Fault(e)).at == At::TakingPrefetched,
{
}

/// A prepared copy is used for the destination that it was made for alone.
pub proof fn law_prepared_copy_fits_destination(c: Course, dest: Seq<u8>, temp: Seq<u8>)
    requires
        c.at == At::TakingPrepared,
    ensures
        ({
            let n = after(c, Answer::Prepared(Some((dest, temp))));
            if components(dest) == components(c.dest) {
                asks(n) == Ask::Rename(temp, c.dest)
            } else {
                asks(n) == Ask::Discard(temp)
            }
        }),
{
}

/// Nothing is written to the destination, and the server is not told to copy to
/// it, before it was created or emptied for that: these come after the request
/// to create it only, once that was met.
pub proof fn law_destination_is_emptied_first(c: Course, answer: Answer)
    ensures
        ({
            let n = after(c, answer);
            &&& n.at is WritingContents && !(c.at is WritingContents) ==> asks(c) == Ask::Create(
                c.dest,
                CREATE_MODE,
            ) && answer is Done
            &&& n.at is Reading && !(c.at is Reading || c.at is WritingChunk) ==> asks(c)
                == Ask::Create(c.dest, CREATE_MODE) && answer is Done
            &&& n.at is WritingChunk && !(c.at is WritingChunk) ==> c.at is Reading
            &&& n.at is LocatingSource && !(c.at is LocatingSource) ==> asks(c) == Ask::Create(
                c.dest,
                CREATE_MODE,
            ) && answer is Done
            &&& n.at is LocatingDest && !(c.at is LocatingDest) ==> c.at is LocatingSource
            &&& n.at is ServerCopying && !(c.at is ServerCopying) ==> c.at is LocatingDest
        }),
{
}

/// An outcome is final.
pub proof fn law_outcome_is_final(c: Course, answer: Answer)
    requires
        asks(c) is Finished,
    ensures
        after(c, answer) == c,
{
}

/// What pieces make when put together.
pub open spec fn joined(pieces: Seq<Seq<u8>>) -> Seq<u8>
    decreases pieces.len(),
{
    if pieces.len() == 0 {
        Seq::empty()
    } else {
        joined(pieces.drop_last()) + pieces.last()
    }
}

/// A copy after it read these pieces, the last of them marked as such, and
/// wrote each.
pub open spec fn read_all(c: Course, pieces: Seq<Seq<u8>>, last: bool) -> Course
    decreases pieces.len(),
{
    if pieces.len() == 0 {
        c
    } else {
        after(
            after(read_all(c, pieces.drop_last(), false), Answer::Data(pieces.last(), last)),
            Answer::Done,
        )
    }
}

proof fn lemma_read_some(c: Course, pieces: Seq<Seq<u8>>)
    requires
        c.at == At::Reading,
    ensures
        read_all(c, pieces, false) == (Course { written: c.written + joined(pieces), ..c }),
    decreases pieces.len(),
{
    if pieces.len() > 0 {
        lemma_read_some(c, pieces.drop_last());
        assert(c.written + joined(pieces) =~= (c.written + joined(pieces.drop_last()))
            + pieces.last());
    } else {
        assert(c.written + joined(pieces) =~= c.written);
    }
}

/// A file that is read from the server is copied whole: each piece is read from
/// where the one before it ended, and what was written in the end is all the
/// pieces, one behind the other.
pub proof fn law_client_read_copies_all(c: Course, pieces: Seq<Seq<u8>>)
    requires
        c.at == At::Reading,
        c.written.len() == 0,
        pieces.len() > 0,
    ensures
        forall|k: int|
            0 <= k < pieces.len() ==> asks(#[trigger] read_all(c, pieces.take(k), false))
                == Ask::Read(joined(pieces.take(k)).len() as int, READ_SIZE as int),
        read_all(c, pieces, true).written == joined(pieces),
        read_all(c, pieces, true).at == At::Closing(None::<CopyFault>),
{
    assert forall|k: int| 0 <= k < pieces.len() implies asks(
        #[trigger] read_all(c, pieces.take(k), false),
    ) == Ask::Read(joined(pieces.take(k)).len() as int, READ_SIZE as int) by {
        lemma_read_some(c, pieces.take(k));
        assert(c.written + joined(pieces.take(k)) =~= joined(pieces.take(k)));
    }
    lemma_read_some(c, pieces.drop_last());
    assert(c.written + joined(pieces.drop_last()) =~= joined(pieces.drop_last()));
}

// ---------------------------------------------------------------------------
// The machine
// ---------------------------------------------------------------------------

/// What the caller is asked to do.
#[derive(Debug)]
pub enum Step {
    /// Have a backend for the mount of the source.
    Connect,
    /// Take out the copy that was prepared for this source.
    TakePrepared(Vec<u8>),
    /// Move the first to the second.
    Rename(Vec<u8>, Vec<u8>),
    /// Remove the file; whether that works does not matter.
    Discard(Vec<u8>),
    /// Create the file with this mode, or empty it.
    Create(Vec<u8>, u32),
    Canonicalize(Vec<u8>),
    /// Have the server copy the first to the second.
    ServerCopy(Vec<u8>, Vec<u8>),
    /// Take out the contents that were read ahead of this source.
    TakePrefetched(Vec<u8>),
    /// Write to the file that was created.
    Write(Vec<u8>),
    /// Open the file on the server with these flags and this mode.
    Open(Vec<u8>, i32, u32),
    /// Read so many bytes from this offset on.
    Read(u64, usize),
    /// Close the file on the server.
    Close,
    /// Done: the method, or none where no backend copied.
    Finished(Result<Option<Method>, CopyFault>),
}

impl View for Step {
    type V = Ask;

    open spec fn view(&self) -> Ask {
        match *self {
            Step::Connect => Ask::Connect,
            Step::TakePrepared(p) => Ask::TakePrepared(p@),
            Step::Rename(a, b) => Ask::Rename(a@, b@),
            Step::Discard(p) => Ask::Discard(p@),
            Step::Create(p, mode) => Ask::Create(p@, mode),
            Step::Canonicalize(p) => Ask::Canonicalize(p@),
            Step::ServerCopy(a, b) => Ask::ServerCopy(a@, b@),
            Step::TakePrefetched(p) => Ask::TakePrefetched(p@),
            Step::Write(d) => Ask::Write(d@),
            Step::Open(p, flags, mode) => Ask::Open(p@, flags, mode),
            Step::Read(offset, len) => Ask::Read(offset as int, len as int),
            Step::Close => Ask::Close,
            Step::Finished(r) => Ask::Finished(r),
        }
    }
}

/// What came of it.
#[derive(Debug)]
pub enum Reply {
    Done,
    /// The local file system failed.
    Failed(IoFailure),
    /// The backend failed.
    BackendFailed(VfError),
    /// No backend is chosen.
    Disabled,
    /// The mount that the backend serves, and whether it can copy.
    Connected(Mount, bool),
    Prepared(Option<PreparedCopy>),
    Prefetched(Option<Vec<u8>>),
    Canonical(Vec<u8>),
    /// Bytes that were read, and whether the file ends with them.
    Data(Vec<u8>, bool),
}

impl View for Reply {
    type V = Answer;

    open spec fn view(&self) -> Answer {
        match *self {
            Reply::Done => Answer::Done,
            Reply::Failed(f) => Answer::Fault(CopyFault::Io(f)),
            Reply::BackendFailed(e) => Answer::Fault(
                CopyFault::Backend(VfIoError { kind: error_kind(e.fault), source: e }),
            ),
            Reply::Disabled => Answer::Fault(CopyFault::Disabled),
            Reply::Connected(m, copies) => Answer::Connected(m@, copies),
            Reply::Prepared(Some(p)) => Answer::Prepared(Some((p.dest@, p.temp@))),
            Reply::Prepared(None) => Answer::Prepared(None),
            Reply::Prefetched(Some(c)) => Answer::Prefetched(Some(c@)),
            Reply::Prefetched(None) => Answer::Prefetched(None),
            Reply::Canonical(p) => Answer::Canonical(p@),
            Reply::Data(d, last) => Answer::Data(d@, last),
        }
    }
}

enum Phase {
    Connecting,
    TakingPrepared,
    Renaming(Vec<u8>),
    Discarding(Vec<u8>),
    CreatingForServer,
    LocatingSource,
    LocatingDest(Vec<u8>),
    ServerCopying(Vec<u8>, Vec<u8>),
    TakingPrefetched,
    CreatingForContents(Vec<u8>),
    WritingContents(Vec<u8>),
    LocatingForRead,
    Opening(Vec<u8>),
    CreatingForRead,
    Reading,
    WritingChunk(Vec<u8>, bool),
    Closing(Option<CopyFault>),
    Declined,
    Copied(Method),
    Failed(CopyFault),
}

/// A copy on its way.
pub struct Copying {
    source: Vec<u8>,
    dest: Vec<u8>,
    source_mount: Option<Mount>,
    dest_mount: Option<Mount>,
    enabled: bool,
    context: Option<(Mount, bool)>,
    offset: u64,
    written: Ghost<Seq<u8>>,
    phase: Phase,
}

spec fn mount_view(m: Option<Mount>) -> Option<MountView> {
    match m {
        Some(m) => Some(m@),
        None => None,
    }
}

impl View for Copying {
    type V = Course;

    closed spec fn view(&self) -> Course {
        Course {
            source: self.source@,
            dest: self.dest@,
            source_mount: mount_view(self.source_mount),
            dest_mount: mount_view(self.dest_mount),
            enabled: self.enabled,
            context: match self.context {
                Some((m, copies)) => Some((m@, copies)),
                None => None,
            },
            written: self.written@,
            at: match self.phase {
                Phase::Connecting => At::Connecting,
                Phase::TakingPrepared => At::TakingPrepared,
                Phase::Renaming(t) => At::Renaming(t@),
                Phase::Discarding(t) => At::Discarding(t@),
                Phase::CreatingForServer => At::CreatingForServer,
                Phase::LocatingSource => At::LocatingSource,
                Phase::LocatingDest(s) => At::LocatingDest(s@),
                Phase::ServerCopying(s, d) => At::ServerCopying(s@, d@),
                Phase::TakingPrefetched => At::TakingPrefetched,
                Phase::CreatingForContents(c) => At::CreatingForContents(c@),
                Phase::WritingContents(c) => At::WritingContents(c@),
                Phase::LocatingForRead => At::LocatingForRead,
                Phase::Opening(p) => At::Opening(p@),
                Phase::CreatingForRead => At::CreatingForRead,
                Phase::Reading => At::Reading,
                Phase::WritingChunk(d, last) => At::WritingChunk(d@, last),
                Phase::Closing(e) => At::Closing(e),
                Phase::Declined => At::Declined,
                Phase::Copied(m) => At::Copied(m),
                Phase::Failed(e) => At::Failed(e),
            },
        }
    }
}

/// Starts the copy of a file. It is declined where no backend is chosen or the
/// source is on no NFS mount.
pub fn try_copy(
    choice: Option<ImplChoice>,
    source: &[u8],
    dest: &[u8],
    source_mount: Option<Mount>,
    dest_mount: Option<Mount>,
    enabled: bool,
) -> (r: Copying)
    ensures
        r@ == (Course {
            source: source@,
            dest: dest@,
            source_mount: match source_mount {
                Some(m) => Some(m@),
                None => None,
            },
            dest_mount: match dest_mount {
                Some(m) => Some(m@),
                None => None,
            },
            enabled,
            context: None,
            written: Seq::empty(),
            at: if choice is Some && source_mount is Some {
                At::Connecting
            } else {
                At::Declined
            },
        }),
        sane(r@),
{
    let phase = if choice.is_some() && source_mount.is_some() {
        Phase::Connecting
    } else {
        Phase::Declined
    };
    Copying {
        source: copy_bytes(source),
        dest: copy_bytes(dest),
        source_mount,
        dest_mount,
        enabled,
        context: None,
        offset: 0,
        written: Ghost(Seq::empty()),
        phase,
    }
}

fn server_name(path: &[u8], mount: &Option<Mount>) -> (r: Result<Vec<u8>, CopyFault>)
    requires
        mount is Some,
    ensures
        match r {
            Ok(name) => mounted_spec(path@, mount->0@) == Some(name@),
            Err(e) => mounted_spec(path@, mount->0@) is None && e == CopyFault::Path(
                VfPathError::OutsideMount,
            ),
        },
{
    match mount {
        Some(m) => match mounted_vf_path(path, m) {
            Ok(name) => Ok(name),
            Err(e) => Err(CopyFault::Path(e)),
        },
        None => Err(CopyFault::Path(VfPathError::OutsideMount)),
    }
}

impl Copying {
    /// What holds between calls.
    #[verifier::type_invariant]
    closed spec fn inv(self) -> bool {
        &&& sane(self@)
        &&& self.offset == self.written@.len() || self.phase is Copied
    }

    /// What is to be done next.
    pub fn step(&self) -> (r: Step)
        ensures
            r@ == asks(self@),
    {
        proof {
            use_type_invariant(self);
        }
        match &self.phase {
            Phase::Connecting => Step::Connect,
            Phase::TakingPrepared => Step::TakePrepared(copy_bytes(self.source.as_slice())),
            Phase::Renaming(t) => Step::Rename(
                copy_bytes(t.as_slice()),
                copy_bytes(self.dest.as_slice()),
            ),
            Phase::Discarding(t) => Step::Discard(copy_bytes(t.as_slice())),
            Phase::CreatingForServer => Step::Create(copy_bytes(self.dest.as_slice()), CREATE_MODE),
            Phase::LocatingSource => Step::Canonicalize(copy_bytes(self.source.as_slice())),
            Phase::LocatingDest(_) => Step::Canonicalize(copy_bytes(self.dest.as_slice())),
            Phase::ServerCopying(s, d) => Step::ServerCopy(
                copy_bytes(s.as_slice()),
                copy_bytes(d.as_slice()),
            ),
            Phase::TakingPrefetched => Step::TakePrefetched(copy_bytes(self.source.as_slice())),
            Phase::CreatingForContents(_) => Step::Create(copy_bytes(self.dest.as_slice()), CREATE_MODE),
            Phase::WritingContents(c) => Step::Write(copy_bytes(c.as_slice())),
            Phase::LocatingForRead => Step::Canonicalize(copy_bytes(self.source.as_slice())),
            Phase::Opening(p) => Step::Open(copy_bytes(p.as_slice()), o_rdonly(), 0),
            Phase::CreatingForRead => Step::Create(copy_bytes(self.dest.as_slice()), CREATE_MODE),
            Phase::Reading => Step::Read(self.offset, READ_SIZE),
            Phase::WritingChunk(d, _) => Step::Write(copy_bytes(d.as_slice())),
            Phase::Closing(_) => Step::Close,
            Phase::Declined => Step::Finished(Ok(None)),
            Phase::Copied(m) => Step::Finished(Ok(Some(*m))),
            Phase::Failed(e) => Step::Finished(Err(*e)),
        }
    }

    fn first_phase(&self) -> (r: Phase)
        ensures
            match r {
                Phase::CreatingForServer => unprepared(self@) == At::CreatingForServer,
                Phase::TakingPrefetched => unprepared(self@) == At::TakingPrefetched,
                _ => false,
            },
    {
        if self.enabled {
            if let (Some(s), Some(d)) = (&self.source_mount, &self.dest_mount) {
                if s.server == d.server {
                    return Phase::CreatingForServer;
                }
            }
        }
        Phase::TakingPrefetched
    }

    /// Takes in what came of the last step.
    pub fn advance(self, reply: Reply) -> (r: Copying)
        requires
            reply matches Reply::Data(d, _) ==> self@.at is Reading ==> self@.written.len()
                + d@.len() <= u64::MAX,
        ensures
            r@ == after(self@, reply@),
            sane(r@),
    {
        proof {
            use_type_invariant(&self);
        }
        let unprepared_phase = self.first_phase();
        let Copying {
            source,
            dest,
            source_mount,
            dest_mount,
            enabled,
            context,
            offset,
            written,
            phase,
        } = self;
        let mut context = context;
        let mut offset: u64 = offset;
        let mut written = written;
        let fault: Option<CopyFault> = match &reply {
            Reply::Failed(f) => Some(CopyFault::Io(*f)),
            Reply::BackendFailed(e) => Some(CopyFault::Backend(vf_io_error(*e))),
            Reply::Disabled => Some(CopyFault::Disabled),
            _ => None,
        };
        let phase = if let Some(e) = fault {
            assert(reply@ == Answer::Fault(e));
            match phase {
                Phase::Discarding(_) => unprepared_phase,
                Phase::ServerCopying(_, _) => Phase::TakingPrefetched,
                Phase::Reading => Phase::Closing(Some(e)),
                Phase::WritingChunk(_, _) => Phase::Closing(Some(e)),
                Phase::Closing(Some(first)) => Phase::Failed(first),
                Phase::TakingPrepared => Phase::TakingPrepared,
                Phase::TakingPrefetched => Phase::TakingPrefetched,
                Phase::Declined => Phase::Declined,
                Phase::Copied(m) => Phase::Copied(m),
                Phase::Failed(first) => Phase::Failed(first),
                _ => Phase::Failed(e),
            }
        } else {
            match (phase, reply) {
                (Phase::Connecting, Reply::Connected(mount, copies)) => {
                    context = Some((mount, copies));
                    Phase::TakingPrepared
                },
                (Phase::TakingPrepared, Reply::Prepared(Some(p))) => {
                    if same_path(p.dest.as_slice(), dest.as_slice()) {
                        Phase::Renaming(p.temp)
                    } else {
                        Phase::Discarding(p.temp)
                    }
                },
                (Phase::TakingPrepared, Reply::Prepared(None)) => unprepared_phase,
                (Phase::Renaming(_), Reply::Done) => Phase::Copied(Method::BatchedServerCopy),
                (Phase::Discarding(_), Reply::Done) => unprepared_phase,
                (Phase::CreatingForServer, Reply::Done) => Phase::LocatingSource,
                (Phase::LocatingSource, Reply::Canonical(path)) => match server_name(
                    path.as_slice(),
                    &source_mount,
                ) {
                    Ok(name) => Phase::LocatingDest(name),
                    Err(e) => Phase::Failed(e),
                },
                (Phase::LocatingDest(from), Reply::Canonical(path)) => match server_name(
                    path.as_slice(),
                    &dest_mount,
                ) {
                    Ok(name) => {
                        let copies = match &context {
                            Some((_, copies)) => *copies,
                            None => false,
                        };
                        if copies {
                            Phase::ServerCopying(from, name)
                        } else {
                            Phase::TakingPrefetched
                        }
                    },
                    Err(e) => Phase::Failed(e),
                },
                (Phase::ServerCopying(_, _), Reply::Done) => Phase::Copied(Method::ServerCopy),
                (Phase::TakingPrefetched, Reply::Prefetched(Some(c))) => Phase::CreatingForContents(
                    c,
                ),
                (Phase::TakingPrefetched, Reply::Prefetched(None)) => Phase::LocatingForRead,
                (Phase::CreatingForContents(c), Reply::Done) => Phase::WritingContents(c),
                (Phase::WritingContents(c), Reply::Done) => {
                    proof {
                        written@ = c@;
                    }
                    Phase::Copied(Method::ClientRead)
                },
                (Phase::LocatingForRead, Reply::Canonical(path)) => {
                    let found = match &context {
                        Some((m, _)) => mounted_vf_path(path.as_slice(), m),
                        None => Err(VfPathError::OutsideMount),
                    };
                    match found {
                        Ok(name) => Phase::Opening(name),
                        Err(e) => Phase::Failed(CopyFault::Path(e)),
                    }
                },
                (Phase::Opening(_), Reply::Done) => Phase::CreatingForRead,
                (Phase::CreatingForRead, Reply::Done) => Phase::Reading,
                (Phase::Reading, Reply::Data(d, last)) => Phase::WritingChunk(d, last),
                (Phase::WritingChunk(d, last), Reply::Done) => {
                    offset = offset + d.len() as u64;
                    proof {
                        written@ = written@ + d@;
                    }
                    if last {
                        Phase::Closing(None)
                    } else {
                        Phase::Reading
                    }
                },
                (Phase::Closing(None), Reply::Done) => Phase::Copied(Method::ClientRead),
                (Phase::Closing(Some(e)), Reply::Done) => Phase::Failed(e),
                (phase, _) => phase,
            }
        };
        Copying {
            source,
            dest,
            source_mount,
            dest_mount,
            enabled,
            context,
            offset,
            written,
            phase,
        }
    }
}

} // verus!
