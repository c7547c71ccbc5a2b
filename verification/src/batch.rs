//! Sources of copies that are read ahead in batches.
use crate::mount::{
    mounted_spec, mounted_vf_path, same_mount, ImplChoice, Mount, MountView, VfPathError,
};
use crate::open::paths_view;
use crate::path::{components, copy_bytes, Component};
use crate::pathmap::PathMap;
use crate::text::{is_value, parse_u64, parse_u64_spec};
use vstd::prelude::*;

verus! {

// ---------------------------------------------------------------------------
// Settings
// ---------------------------------------------------------------------------

/// How many files are read in one request.
pub const READ_ALL_FILES_PER_BATCH: usize = 8;

/// How many bytes are read ahead unless something else is asked for.
pub const DEFAULT_BATCH_BYTES: u64 = 67_108_864;

/// How many files are read ahead, at most.
pub const MAX_BATCH_FILES: usize = 4096;

pub open spec fn text_view(value: Option<&str>) -> Option<Seq<char>> {
    match value {
        Some(v) => Some(v@),
        None => None,
    }
}

/// Whether the value of `VNFS_CP_SERVER_COPY` lets the server copy: all but `0` do.
pub fn server_copy_enabled(value: Option<&str>) -> (r: bool)
    ensures
        r == (text_view(value) != Some("0"@)),
{
    !is_value(value, "0")
}

/// How many bytes may be read ahead, by the value of `VNFS_CP_BATCH_BYTES`.
pub fn batch_bytes(value: Option<&str>) -> (r: u64)
    ensures
        r == (match text_view(value) {
            Some(v) => match parse_u64_spec(v) {
                Some(n) => n,
                None => DEFAULT_BATCH_BYTES,
            },
            None => DEFAULT_BATCH_BYTES,
        }),
{
    match value {
        Some(v) => match parse_u64(v) {
            Some(n) => n,
            None => DEFAULT_BATCH_BYTES,
        },
        None => DEFAULT_BATCH_BYTES,
    }
}

// ---------------------------------------------------------------------------
// Reading ahead
// ---------------------------------------------------------------------------

/// A source of a copy.
pub struct BatchSource {
    pub path: Vec<u8>,
    /// Its length, where it is a regular file.
    pub file_len: Option<u64>,
    /// The NFS mount that it lies on, if any.
    pub mount: Option<Mount>,
}

pub open spec fn mount_view(m: Option<Mount>) -> Option<MountView> {
    match m {
        Some(m) => Some(m@),
        None => None,
    }
}

/// What was picked of the first sources.
pub struct Picked {
    pub chosen: Seq<int>,
    pub total: int,
    pub mount: Option<MountView>,
    /// Whether nothing more is picked.
    pub full: bool,
}

/// Whether a path is among those of the first `i` sources.
pub open spec fn is_among(sources: Seq<BatchSource>, i: int, key: Seq<Component>) -> bool {
    exists|j: int| 0 <= j < i && components((#[trigger] sources[j]).path@) == key
}

/// Whether a source is picked after others: a regular file that did not come
/// before, small enough for what is left, on the mount of the first one picked.
pub open spec fn picks(sources: Seq<BatchSource>, i: int, max: int, before: Picked) -> bool {
    &&& !before.full
    &&& !is_among(sources, i, components(sources[i].path@))
    &&& sources[i].file_len matches Some(n) && n <= max - before.total
    &&& sources[i].mount matches Some(m) && (before.mount matches Some(first) ==> same_mount(
        first,
        m@,
    ))
}

/// What is picked of the first `i` sources. Enough is enough once the number of
/// files or of bytes is reached.
pub open spec fn picked(sources: Seq<BatchSource>, max: int, i: int) -> Picked
    decreases i,
{
    if i <= 0 {
        Picked { chosen: Seq::empty(), total: 0, mount: None, full: false }
    } else {
        let before = picked(sources, max, i - 1);
        if picks(sources, i - 1, max, before) {
            let chosen = before.chosen.push(i - 1);
            let total = before.total + sources[i - 1].file_len->0;
            Picked {
                chosen,
                total,
                mount: match before.mount {
                    Some(m) => Some(m),
                    None => mount_view(sources[i - 1].mount),
                },
                full: chosen.len() == MAX_BATCH_FILES || total == max,
            }
        } else {
            before
        }
    }
}

/// The lengths of the chosen sources, summed up.
pub open spec fn total_len(sources: Seq<BatchSource>, chosen: Seq<int>) -> int
    decreases chosen.len(),
{
    if chosen.len() == 0 {
        0
    } else {
        total_len(sources, chosen.drop_last()) + sources[chosen.last()].file_len->0
    }
}

/// Reading ahead is bounded: no more bytes than allowed, counted exactly, and no
/// more files than allowed; and what is read ahead are regular files on one
/// mount, none of them twice, in the order of the sources.
pub proof fn law_batch_is_bounded(sources: Seq<BatchSource>, max: int, i: int)
    requires
        0 <= max,
        0 <= i <= sources.len(),
    ensures
        ({
            let p = picked(sources, max, i);
            &&& p.total <= max
            &&& p.total == total_len(sources, p.chosen)
            &&& p.chosen.len() <= MAX_BATCH_FILES
            &&& p.chosen.len() > 0 <==> p.mount is Some
            &&& !p.full ==> p.chosen.len() < MAX_BATCH_FILES
            &&& forall|k: int|
                0 <= k < p.chosen.len() ==> 0 <= #[trigger] p.chosen[k] < i
                    && sources[p.chosen[k]].file_len is Some && (
                sources[p.chosen[k]].mount matches Some(m) && same_mount(p.mount->0, m@))
            &&& forall|k: int, l: int|
                0 <= k < l < p.chosen.len() ==> #[trigger] p.chosen[k] < #[trigger] p.chosen[l]
                    && components(sources[p.chosen[k]].path@) != components(
                    sources[p.chosen[l]].path@,
                )
        }),
    decreases i,
{
    if i > 0 {
        law_batch_is_bounded(sources, max, i - 1);
        let before = picked(sources, max, i - 1);
        let p = picked(sources, max, i);
        if picks(sources, i - 1, max, before) {
            assert(p.chosen.drop_last() =~= before.chosen);
            assert forall|k: int| 0 <= k < p.chosen.len() implies 0 <= #[trigger] p.chosen[k] < i
                && sources[p.chosen[k]].file_len is Some && (sources[p.chosen[k]].mount matches Some(
                m,
            ) && same_mount(p.mount->0, m@)) by {
                if k < before.chosen.len() {
                    assert(p.chosen[k] == before.chosen[k]);
                }
            }
            assert forall|k: int, l: int| 0 <= k < l < p.chosen.len() implies #[trigger] p.chosen[k]
                < #[trigger] p.chosen[l] && components(sources[p.chosen[k]].path@) != components(
                sources[p.chosen[l]].path@,
            ) by {
                assert(p.chosen[k] == before.chosen[k]);
                if l < before.chosen.len() {
                    assert(p.chosen[l] == before.chosen[l]);
                } else {
                    assert(!is_among(sources, i - 1, components(sources[i - 1].path@)));
                    assert(components(sources[p.chosen[k]].path@) != components(
                        sources[i - 1].path@,
                    ));
                }
            }
        }
    }
}

/// Sources to read ahead.
pub struct Batch {
    pub mount: Mount,
    /// The places of the sources.
    pub selected: Vec<usize>,
    /// How long they are together.
    pub total: u64,
}

pub open spec fn places_view(selected: Seq<usize>) -> Seq<int> {
    Seq::new(selected.len(), |k: int| selected[k] as int)
}

/// Whether the caller prepares anything at all: a backend is chosen, and there
/// are two sources or more.
pub fn prepares(choice: Option<ImplChoice>, count: usize) -> (r: bool)
    ensures
        r == (choice is Some && count >= 2),
{
    choice.is_some() && count >= 2
}

/// The sources to read ahead, if there are two or more. `copied` tells that the
/// server made the copies already.
pub fn prepare_batch(
    choice: Option<ImplChoice>,
    copied: bool,
    max_bytes: u64,
    sources: &Vec<BatchSource>,
) -> (r: Option<Batch>)
    ensures
        ({
            let p = picked(sources@, max_bytes as int, sources@.len() as int);
            if choice is Some && sources@.len() >= 2 && !copied && max_bytes > 0 && p.chosen.len()
                >= 2 {
                &&& r matches Some(b)
                &&& places_view(b.selected@) == p.chosen
                &&& b.total == p.total
                &&& Some(b.mount@) == p.mount
                &&& forall|k: int|
                    0 <= k < b.selected@.len() ==> (#[trigger] b.selected@[k]) < sources@.len()
            } else {
                r is None
            }
        }),
{
    if !prepares(choice, sources.len()) || copied || max_bytes == 0 {
        return None;
    }
    let n: usize = sources.len();
    let ghost max = max_bytes as int;
    let mut selected: Vec<usize> = Vec::new();
    let mut total: u64 = 0;
    let mut mount: Option<Mount> = None;
    let mut full = false;
    let mut seen: PathMap<()> = PathMap::new();
    let mut i: usize = 0;
    assert(places_view(selected@) =~= Seq::empty());
    while i < n
        invariant
            n == sources@.len(),
            i <= n,
            max == max_bytes as int,
            places_view(selected@) == picked(sources@, max, i as int).chosen,
            total == picked(sources@, max, i as int).total,
            mount_view(mount) == picked(sources@, max, i as int).mount,
            full == picked(sources@, max, i as int).full,
            !full ==> forall|k: Seq<Component>| #[trigger]
                seen@.dom().contains(k) <==> is_among(sources@, i as int, k),
            total <= max_bytes,
            selected@.len() <= MAX_BATCH_FILES,
            forall|k: int| 0 <= k < selected@.len() ==> (#[trigger] selected@[k]) < n,
        decreases n - i,
    {
        proof {
            law_batch_is_bounded(sources@, max, i as int);
            law_batch_is_bounded(sources@, max, i + 1);
        }
        let s = &sources[i];
        let ghost known = seen@;
        let key = s.path.as_slice();
        if !full && !seen.contains(key) {
            seen.insert(copy_bytes(key), ());
            if let Some(len) = s.file_len {
                if len <= max_bytes - total {
                    if let Some(m) = &s.mount {
                        let fits = match &mount {
                            Some(first) => first.same_as(m),
                            None => true,
                        };
                        if fits {
                            if mount.is_none() {
                                mount = Some(m.duplicate());
                            }
                            let ghost sofar = selected@;
                            total = total + len;
                            selected.push(i);
                            assert(places_view(selected@) =~= places_view(sofar).push(i as int));
                            full = selected.len() == MAX_BATCH_FILES || total == max_bytes;
                        }
                    }
                }
            }
        }
        proof {
            if !full {
                assert forall|k: Seq<Component>| #[trigger]
                    seen@.dom().contains(k) <==> is_among(sources@, i + 1, k) by {
                    assert(known.dom().contains(k) <==> is_among(sources@, i as int, k));
                    if is_among(sources@, i + 1, k) && k != components(s.path@) {
                        let j = choose|j: int|
                            0 <= j < i + 1 && components((#[trigger] sources@[j]).path@) == k;
                        assert(j < i);
                        assert(is_among(sources@, i as int, k));
                    }
                    if k == components(s.path@) {
                        assert(components(sources@[i as int].path@) == k);
                        assert(is_among(sources@, i + 1, k));
                    }
                    if is_among(sources@, i as int, k) {
                        let j = choose|j: int|
                            0 <= j < i && components((#[trigger] sources@[j]).path@) == k;
                        assert(components(sources@[j].path@) == k && j < i + 1);
                        assert(is_among(sources@, i + 1, k));
                    }
                }
            }
        }
        i = i + 1;
    }
    if selected.len() < 2 {
        return None;
    }
    match mount {
        Some(mount) => Some(Batch { mount, selected, total }),
        None => {
            proof {
                law_batch_is_bounded(sources@, max, n as int);
            }
            None
        },
    }
}

// ---------------------------------------------------------------------------
// What is kept
// ---------------------------------------------------------------------------

/// What is kept once the contents of files were read: of each file for which
/// there are contents, those.
pub open spec fn kept(
    before: Map<Seq<Component>, Vec<u8>>,
    paths: Seq<Seq<u8>>,
    contents: Seq<Vec<u8>>,
) -> Map<Seq<Component>, Vec<u8>>
    decreases contents.len(),
{
    if contents.len() == 0 {
        before
    } else {
        let rest = kept(before, paths, contents.drop_last());
        if contents.len() <= paths.len() {
            rest.insert(components(paths[contents.len() - 1]), contents.last())
        } else {
            rest
        }
    }
}

/// What was read ahead of a file is what is found by its path, where the files of
/// a request are different ones; and nothing else is touched.
pub proof fn law_contents_are_given_back(
    before: Map<Seq<Component>, Vec<u8>>,
    paths: Seq<Seq<u8>>,
    contents: Seq<Vec<u8>>,
)
    requires
        forall|i: int, j: int|
            0 <= i < j < paths.len() ==> components(#[trigger] paths[i]) != components(
                #[trigger] paths[j],
            ),
    ensures
        forall|i: int|
            0 <= i < paths.len() && i < contents.len() ==> kept(
                before,
                paths,
                contents,
            ).dom().contains(components(#[trigger] paths[i])) && kept(
                before,
                paths,
                contents,
            )[components(paths[i])] == contents[i],
        forall|k: Seq<Component>|
            (forall|i: int|
                0 <= i < paths.len() && i < contents.len() ==> components(#[trigger] paths[i])
                    != k) ==> #[trigger] kept(before, paths, contents).dom().contains(k)
                == before.dom().contains(k) && kept(before, paths, contents)[k] == before[k],
    decreases contents.len(),
{
    if contents.len() > 0 {
        let fewer = contents.drop_last();
        law_contents_are_given_back(before, paths, fewer);
        let n = contents.len() as int;
        let rest = kept(before, paths, fewer);
        let all = kept(before, paths, contents);
        assert forall|i: int| 0 <= i < paths.len() && i < contents.len() implies all.dom().contains(
            components(#[trigger] paths[i]),
        ) && all[components(paths[i])] == contents[i] by {
            if i < fewer.len() {
                assert(rest.dom().contains(components(paths[i])));
                assert(fewer[i] == contents[i]);
                if n <= paths.len() {
                    assert(components(paths[i]) != components(paths[n - 1]));
                }
            }
        }
        assert forall|k: Seq<Component>|
            (forall|i: int|
                0 <= i < paths.len() && i < contents.len() ==> components(#[trigger] paths[i])
                    != k) implies #[trigger] all.dom().contains(k) == before.dom().contains(k)
            && all[k] == before[k] by {
            assert(rest.dom().contains(k) == before.dom().contains(k) && rest[k] == before[k]);
            if n <= paths.len() {
                assert(components(paths[n - 1]) != k);
            }
        }
    }
}

/// Keeps what was read ahead.
pub fn keep_contents(
    prefetched: &mut PathMap<Vec<u8>>,
    paths: &Vec<Vec<u8>>,
    contents: Vec<Vec<u8>>,
)
    ensures
        final(prefetched)@ == kept(old(prefetched)@, paths_view(paths@), contents@),
{
    let ghost all = contents@;
    let ghost before = prefetched@;
    let n: usize = contents.len();
    let mut rest = crate::sort::reversed(contents);
    let mut i: usize = 0;
    assert(all.take(0) =~= Seq::empty());
    while rest.len() > 0
        invariant
            n == all.len(),
            i == n - rest@.len(),
            forall|k: int| 0 <= k < rest@.len() ==> #[trigger] rest@[k] == all[n - 1 - k],
            prefetched@ == kept(before, paths_view(paths@), all.take(i as int)),
        decreases rest@.len(),
    {
        assert(rest@[rest@.len() - 1] == all[i as int]);
        assert(all.take(i + 1).drop_last() =~= all.take(i as int));
        if let Some(c) = rest.pop() {
            if i < paths.len() {
                prefetched.insert(copy_bytes(paths[i].as_slice()), c);
            }
        }
        i = i + 1;
    }
    assert(all.take(n as int) =~= all);
}

// ---------------------------------------------------------------------------
// The course of reading ahead
// ---------------------------------------------------------------------------

/// What is waited for.
#[verifier::ext_equal]
pub enum At {
    /// A backend for the mount of the files.
    Connecting,
    /// The server's names of the files of a request.
    Locating,
    /// The contents of the files of a request.
    Reading,
    /// A failure ended it.
    Stopped,
    /// All files were read.
    Finished,
}

/// Where reading ahead stands.
#[verifier::ext_equal]
pub struct Course {
    /// The mount that the files lie on.
    pub mount: MountView,
    /// The mount that the backend serves.
    pub context: Option<MountView>,
    pub paths: Seq<Seq<u8>>,
    /// Where the files of this request start.
    pub from: int,
    /// The server's names of them, as far as they were found out.
    pub names: Seq<Seq<u8>>,
    pub at: At,
}

/// What the caller is asked to do.
#[verifier::ext_equal]
pub enum Ask {
    /// Have a backend for this mount.
    Connect(MountView),
    Canonicalize(Seq<u8>),
    /// Read these files whole.
    Read(Seq<Seq<u8>>),
    /// Nothing more; whether all files were read.
    Done(bool),
}

/// What came of it.
#[verifier::ext_equal]
pub enum Answer {
    Failed,
    Connected(MountView),
    Canonical(Seq<u8>),
    Contents(Seq<Vec<u8>>),
}

/// Where the files of a request end.
pub open spec fn request_end(c: Course) -> int {
    if c.from + READ_ALL_FILES_PER_BATCH <= c.paths.len() {
        c.from + READ_ALL_FILES_PER_BATCH
    } else {
        c.paths.len() as int
    }
}

/// The files of a request.
pub open spec fn request_paths(c: Course) -> Seq<Seq<u8>> {
    c.paths.subrange(c.from, request_end(c))
}

/// On to the files from `from` on.
pub open spec fn next_request(c: Course, from: int) -> Course {
    Course {
        from,
        names: Seq::empty(),
        at: if from < c.paths.len() {
            At::Locating
        } else {
            At::Finished
        },
        ..c
    }
}

/// How reading ahead goes on. An answer to what was not asked changes nothing.
pub open spec fn after(c: Course, answer: Answer) -> Course {
    match (c.at, answer) {
        (At::Connecting, Answer::Connected(m)) => next_request(
            Course { context: Some(m), ..c },
            0,
        ),
        (At::Locating, Answer::Canonical(path)) => match mounted_spec(path, c.context->0) {
            Some(name) => Course {
                names: c.names.push(name),
                at: if c.from + c.names.len() + 1 < request_end(c) {
                    At::Locating
                } else {
                    At::Reading
                },
                ..c
            },
            None => Course { at: At::Stopped, ..c },
        },
        (At::Reading, Answer::Contents(_)) => next_request(c, request_end(c)),
        (At::Connecting, Answer::Failed) => Course { at: At::Stopped, ..c },
        (At::Locating, Answer::Failed) => Course { at: At::Stopped, ..c },
        (At::Reading, Answer::Failed) => Course { at: At::Stopped, ..c },
        _ => c,
    }
}

/// What is kept after an answer: the contents that were asked for, beside what
/// was kept before.
pub open spec fn keeps(c: Course, answer: Answer, before: Map<Seq<Component>, Vec<u8>>) -> Map<
    Seq<Component>,
    Vec<u8>,
> {
    match (c.at, answer) {
        (At::Reading, Answer::Contents(contents)) => kept(before, request_paths(c), contents),
        _ => before,
    }
}

/// What is to be done where reading ahead stands.
pub open spec fn asks(c: Course) -> Ask {
    match c.at {
        At::Connecting => Ask::Connect(c.mount),
        At::Locating => Ask::Canonicalize(c.paths[c.from + c.names.len()]),
        At::Reading => Ask::Read(c.names),
        At::Stopped => Ask::Done(false),
        At::Finished => Ask::Done(true),
    }
}

/// What holds of reading ahead on its way.
pub open spec fn sane(c: Course) -> bool {
    &&& 0 <= c.from <= c.paths.len()
    &&& match c.at {
        At::Connecting => c.from == 0,
        At::Locating => c.context is Some && c.from < c.paths.len() && c.from + c.names.len()
            < request_end(c),
        At::Reading => c.context is Some && c.from < c.paths.len() && c.from + c.names.len()
            == request_end(c),
        At::Stopped => true,
        At::Finished => c.from == c.paths.len(),
    }
}

/// A failure of whatever kind ends reading ahead, without an error: nothing more
/// is asked for, and what was kept before stays kept. A file that lies outside
/// the mount counts as a failure.
pub proof fn law_failure_ends_reading_ahead(
    c: Course,
    answer: Answer,
    before: Map<Seq<Component>, Vec<u8>>,
)
    requires
        sane(c),
        answer is Failed || (c.at is Locating && (answer matches Answer::Canonical(path)
            && mounted_spec(path, c.context->0) is None)),
    ensures
        asks(after(c, answer)) is Done,
        !(c.at is Finished) ==> asks(after(c, answer)) == Ask::Done(false),
        keeps(c, answer, before) == before,
{
}

/// Once reading ahead is done it stays done, and nothing is kept any more.
pub proof fn law_reading_ahead_stays_done(
    c: Course,
    answer: Answer,
    before: Map<Seq<Component>, Vec<u8>>,
)
    requires
        asks(c) is Done,
    ensures
        after(c, answer) == c,
        keeps(c, answer, before) == before,
{
}

/// A request names a few files at most, and at least one; the files of one
/// request follow those of the one before, and all are read once the last
/// request was met.
pub proof fn law_requests_follow_each_other(c: Course, answer: Answer)
    requires
        sane(c),
    ensures
        sane(after(c, answer)),
        asks(c) matches Ask::Read(names) ==> 0 < names.len() <= READ_ALL_FILES_PER_BATCH
            && names.len() == request_paths(c).len(),
        after(c, answer).from != c.from ==> c.at is Reading && after(c, answer).from
            == request_end(c),
        asks(after(c, answer)) == Ask::Done(true) ==> after(c, answer).from == c.paths.len(),
{
}

/// Reading ahead ends: each answer to what was asked brings its end nearer.
pub proof fn law_reading_ahead_ends(c: Course, answer: Answer)
    requires
        sane(c),
        match c.at {
            At::Connecting => answer is Connected || answer is Failed,
            At::Locating => answer is Canonical || answer is Failed,
            At::Reading => answer is Contents || answer is Failed,
            _ => false,
        },
    ensures
        decreases_to!(
            c.paths.len() - c.from, stage(c)
            =>
            after(c, answer).paths.len() - after(c, answer).from, stage(after(c, answer))
        ),
{
}

pub open spec fn stage(c: Course) -> int {
    match c.at {
        At::Connecting => READ_ALL_FILES_PER_BATCH + 3,
        At::Locating => request_end(c) - c.from - c.names.len() + 1,
        At::Reading => 1,
        _ => 0,
    }
}

/// What the caller is asked to do.
pub enum Step {
    /// Have a backend for this mount.
    Connect(Mount),
    Canonicalize(Vec<u8>),
    /// Read these files whole.
    Read(Vec<Vec<u8>>),
    /// Nothing more; whether all files were read.
    Done(bool),
}

impl View for Step {
    type V = Ask;

    open spec fn view(&self) -> Ask {
        match *self {
            Step::Connect(m) => Ask::Connect(m@),
            Step::Canonicalize(p) => Ask::Canonicalize(p@),
            Step::Read(names) => Ask::Read(paths_view(names@)),
            Step::Done(all) => Ask::Done(all),
        }
    }
}

/// What came of it.
pub enum Reply {
    Failed,
    /// The mount that the backend serves.
    Connected(Mount),
    Canonical(Vec<u8>),
    Contents(Vec<Vec<u8>>),
}

impl View for Reply {
    type V = Answer;

    open spec fn view(&self) -> Answer {
        match *self {
            Reply::Failed => Answer::Failed,
            Reply::Connected(m) => Answer::Connected(m@),
            Reply::Canonical(p) => Answer::Canonical(p@),
            Reply::Contents(c) => Answer::Contents(c@),
        }
    }
}

enum Phase {
    Connecting,
    Locating,
    Reading,
    Stopped,
    Finished,
}

/// Reading ahead on its way.
pub struct ReadAhead {
    mount: Mount,
    context: Option<Mount>,
    paths: Vec<Vec<u8>>,
    from: usize,
    names: Vec<Vec<u8>>,
    phase: Phase,
}

impl View for ReadAhead {
    type V = Course;

    closed spec fn view(&self) -> Course {
        Course {
            mount: self.mount@,
            context: mount_view(self.context),
            paths: paths_view(self.paths@),
            from: self.from as int,
            names: paths_view(self.names@),
            at: match self.phase {
                Phase::Connecting => At::Connecting,
                Phase::Locating => At::Locating,
                Phase::Reading => At::Reading,
                Phase::Stopped => At::Stopped,
                Phase::Finished => At::Finished,
            },
        }
    }
}

fn copy_paths(paths: &Vec<Vec<u8>>, from: usize, to: usize) -> (r: Vec<Vec<u8>>)
    requires
        from <= to <= paths@.len(),
    ensures
        paths_view(r@) == paths_view(paths@).subrange(from as int, to as int),
{
    let mut out: Vec<Vec<u8>> = Vec::new();
    let mut i: usize = from;
    while i < to
        invariant
            from <= i <= to <= paths@.len(),
            out@.len() == i - from,
            forall|k: int| 0 <= k < out@.len() ==> (#[trigger] out@[k])@ == paths@[from + k]@,
        decreases to - i,
    {
        out.push(copy_bytes(paths[i].as_slice()));
        i = i + 1;
    }
    assert(paths_view(out@) =~= paths_view(paths@).subrange(from as int, to as int));
    out
}

impl ReadAhead {
    /// What holds between calls.
    #[verifier::type_invariant]
    closed spec fn inv(self) -> bool {
        sane(self@)
    }

    /// Starts reading the sources of a batch.
    pub fn start(batch: Batch, sources: &Vec<BatchSource>) -> (r: ReadAhead)
        requires
            forall|k: int| 0 <= k < batch.selected@.len() ==> (#[trigger] batch.selected@[k])
                < sources@.len(),
        ensures
            r@ == (Course {
                mount: batch.mount@,
                context: None,
                paths: places_view(batch.selected@).map_values(|i: int| sources@[i].path@),
                from: 0,
                names: Seq::empty(),
                at: At::Connecting,
            }),
            sane(r@),
    {
        let Batch { mount, selected, total: _ } = batch;
        let n: usize = selected.len();
        let mut paths: Vec<Vec<u8>> = Vec::new();
        let mut k: usize = 0;
        while k < n
            invariant
                n == selected@.len(),
                k <= n,
                forall|k: int| 0 <= k < n ==> (#[trigger] selected@[k]) < sources@.len(),
                paths@.len() == k,
                forall|j: int|
                    0 <= j < k ==> (#[trigger] paths@[j])@ == sources@[selected@[j] as int].path@,
            decreases n - k,
        {
            paths.push(copy_bytes(sources[selected[k]].path.as_slice()));
            k = k + 1;
        }
        assert(paths_view(paths@) =~= places_view(selected@).map_values(
            |i: int| sources@[i].path@,
        ));
        let names: Vec<Vec<u8>> = Vec::new();
        assert(paths_view(names@) =~= Seq::empty());
        ReadAhead { mount, context: None, paths, from: 0, names, phase: Phase::Connecting }
    }

    fn end(&self) -> (r: usize)
        ensures
            r == request_end(self@),
            self.from <= r <= self.paths@.len(),
    {
        proof {
            use_type_invariant(self);
        }
        let n: usize = self.paths.len();
        if n - self.from >= READ_ALL_FILES_PER_BATCH {
            self.from + READ_ALL_FILES_PER_BATCH
        } else {
            n
        }
    }

    /// What is to be done next.
    pub fn step(&self) -> (r: Step)
        ensures
            r@ == asks(self@),
    {
        proof {
            use_type_invariant(self);
        }
        match self.phase {
            Phase::Connecting => Step::Connect(self.mount.duplicate()),
            Phase::Locating => {
                assert(self.paths.len() == self.paths@.len());
                let at: usize = self.from + self.names.len();
                Step::Canonicalize(copy_bytes(self.paths[at].as_slice()))
            },
            Phase::Reading => {
                let n: usize = self.names.len();
                let names = copy_paths(&self.names, 0, n);
                assert(paths_view(names@) =~= paths_view(self.names@));
                Step::Read(names)
            },
            Phase::Stopped => Step::Done(false),
            Phase::Finished => Step::Done(true),
        }
    }

    /// Takes in what came of the last step, and keeps what was read.
    pub fn advance(self, reply: Reply, prefetched: &mut PathMap<Vec<u8>>) -> (r: ReadAhead)
        ensures
            r@ == after(self@, reply@),
            final(prefetched)@ == keeps(self@, reply@, old(prefetched)@),
            sane(r@),
    {
        proof {
            use_type_invariant(&self);
        }
        let ghost before = self@;
        let end: usize = self.end();
        let ReadAhead { mount, context, paths, from, names, phase } = self;
        let mut context = context;
        let mut from: usize = from;
        let mut names = names;
        let n: usize = paths.len();
        let phase = match (phase, reply) {
            (Phase::Connecting, Reply::Connected(m)) => {
                context = Some(m);
                names = Vec::new();
                assert(paths_view(names@) =~= Seq::empty());
                if n > 0 {
                    Phase::Locating
                } else {
                    Phase::Finished
                }
            },
            (Phase::Locating, Reply::Canonical(path)) => {
                let found = match &context {
                    Some(m) => mounted_vf_path(path.as_slice(), m),
                    None => Err(VfPathError::OutsideMount),
                };
                match found {
                    Ok(name) => {
                        let ghost sofar = names@;
                        names.push(name);
                        assert(paths_view(names@) =~= paths_view(sofar).push(name@));
                        if names.len() < end - from {
                            Phase::Locating
                        } else {
                            Phase::Reading
                        }
                    },
                    Err(_) => Phase::Stopped,
                }
            },
            (Phase::Reading, Reply::Contents(contents)) => {
                let read = copy_paths(&paths, from, end);
                keep_contents(prefetched, &read, contents);
                from = end;
                names = Vec::new();
                assert(paths_view(names@) =~= Seq::empty());
                if end < n {
                    Phase::Locating
                } else {
                    Phase::Finished
                }
            },
            (Phase::Connecting, Reply::Failed) => Phase::Stopped,
            (Phase::Locating, Reply::Failed) => Phase::Stopped,
            (Phase::Reading, Reply::Failed) => Phase::Stopped,
            (phase, _) => phase,
        };
        ReadAhead { mount, context, paths, from, names, phase }
    }
}

} // verus!
