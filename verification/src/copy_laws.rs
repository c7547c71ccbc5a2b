//! What copying and removing come to, told by the steps that are asked for and by
//! the components of the names that go with them.
use crate::attrs::{error_kind, VfIoError};
use crate::copy::{
    is_found, is_prepared_temp, lists_temps, search_ends, with_plans, Backend, COPYING_MINOR,
};
use crate::copy_file::{after, asks, Answer, At, CopyFault, Course, Method, Reply, Step};
use crate::mount::{
    last_longest, law_mounted_path_keeps_components, mounts_over, Mount, MountView, VfPathError,
};
use crate::path::{
    components, file_name_spec, join_spec, law_parent_drops_last_component,
    law_parent_holds_file_name, lemma_child_path, lemma_file_name_is_plain, lemma_spans,
    parent_spec, Component,
};
use crate::pathmap::{holds_value, lists_values};
use crate::remove::{holding_dir, removal};
use crate::server_copy::{
    asks_server, dest_of, dest_taken, first_stop, law_temp_names_differ, plans_copy, temp_name_spec,
    verdict, CopyError, CopyPlan, CopySource, CopyTarget, PreparedCopy, Verdict,
};
use crate::text::{decimal, lines_spec};
use vstd::prelude::*;

verus! {

// ---------------------------------------------------------------------------
// One copy
// ---------------------------------------------------------------------------

/// Whether a step asks to create the destination, or to empty it, with the owner
/// alone allowed to read and write it.
pub open spec fn creates_dest(s: Step, c: Course) -> bool {
    s matches Step::Create(path, mode) && path@ == c.dest && mode == 0o600
}

/// What a failure is told as, where a reply is one.
pub open spec fn fault_of(reply: Reply) -> Option<CopyFault> {
    match reply {
        Reply::Failed(f) => Some(CopyFault::Io(f)),
        Reply::BackendFailed(e) => Some(
            CopyFault::Backend(VfIoError { kind: error_kind(e.fault), source: e }),
        ),
        Reply::Disabled => Some(CopyFault::Disabled),
        _ => None,
    }
}

/// Contents that were read ahead are what is asked to be written, all of them and
/// nothing else, once the destination was created; and they are what was written
/// when the copy is done.
pub proof fn law_prefetched_contents_are_written_whole(
    c: Course,
    contents: Vec<u8>,
    first: Step,
    second: Step,
    third: Step,
)
    requires
        c.at == At::TakingPrefetched,
        ({
            let created = after(c, Reply::Prefetched(Some(contents))@);
            let writing = after(created, Reply::Done@);
            let done = after(writing, Reply::Done@);
            &&& first@ == asks(created)
            &&& second@ == asks(writing)
            &&& third@ == asks(done)
        }),
    ensures
        creates_dest(first, c),
        second matches Step::Write(data) && data@ == contents@,
        third == Step::Finished(Ok(Some(Method::ClientRead))),
        ({
            let created = after(c, Reply::Prefetched(Some(contents))@);
            let writing = after(created, Reply::Done@);
            let done = after(writing, Reply::Done@);
            &&& done.at == At::Copied(Method::ClientRead)
            &&& done.written == contents@
        }),
{
}

/// Where nothing was read ahead, the source is read from the server: it is opened
/// for reading by its name below the export of the backend's mount, and the
/// destination is created before the first piece is read.
pub proof fn law_source_is_opened_by_its_name(
    c: Course,
    path: Vec<u8>,
    first: Step,
    second: Step,
    third: Step,
    fourth: Step,
)
    requires
        c.at == At::TakingPrefetched,
        c.context is Some,
        (c.context->0).0.point.len() > 0,
        components((c.context->0).0.point).is_prefix_of(components(path@)),
        ({
            let locating = after(c, Reply::Prefetched(None)@);
            let opening = after(locating, Reply::Canonical(path)@);
            let creating = after(opening, Reply::Done@);
            let reading = after(creating, Reply::Done@);
            &&& first@ == asks(locating)
            &&& second@ == asks(opening)
            &&& third@ == asks(creating)
            &&& fourth@ == asks(reading)
        }),
    ensures
        first matches Step::Canonicalize(p) && p@ == c.source,
        second matches Step::Open(name, flags, mode) && flags == 0 && mode == 0 && components(name@)
            == components((c.context->0).0.export) + components(path@).skip(
            components((c.context->0).0.point).len() as int,
        ),
        creates_dest(third, c),
        fourth matches Step::Read(offset, len) && offset == c.written.len() && len == 1_048_576,
{
    law_mounted_path_keeps_components(path@, (c.context->0).0);
}

/// A piece that was read is what is asked to be written, all of it; then the next
/// piece is read from behind it, or the source is closed where it was the last.
pub proof fn law_pieces_are_written_as_read(
    c: Course,
    data: Vec<u8>,
    last: bool,
    first: Step,
    second: Step,
)
    requires
        c.at == At::Reading,
        ({
            let writing = after(c, Reply::Data(data, last)@);
            &&& first@ == asks(writing)
            &&& second@ == asks(after(writing, Reply::Done@))
        }),
    ensures
        first matches Step::Write(d) && d@ == data@,
        last ==> second == Step::Close,
        !last ==> (second matches Step::Read(offset, len) && offset == c.written.len()
            + data@.len() && len == 1_048_576),
        after(after(c, Reply::Data(data, last)@), Reply::Done@).written == c.written + data@,
{
}

/// Closing the source ends a copy that read it: it is done, or it failed with what
/// went wrong first.
pub proof fn law_closing_ends_a_copy(c: Course, first: Option<CopyFault>, reply: Reply, s: Step)
    requires
        c.at == At::Closing(first),
        reply is Done || fault_of(reply) is Some,
        s@ == asks(after(c, reply@)),
    ensures
        first matches Some(e) ==> s == Step::Finished(Err(e)),
        first is None && reply is Done ==> s == Step::Finished(Ok(Some(Method::ClientRead))),
        first is None && fault_of(reply) is Some ==> s == Step::Finished(
            Err(fault_of(reply)->0),
        ),
        after(c, reply@).written == c.written,
{
}

/// A failure ends the copy, and the copy fails with it: but a source that is being
/// read is closed first, a copy that the server refuses is made another way, and a
/// temporary file that cannot be removed does not matter.
pub proof fn law_what_a_failure_leads_to(c: Course, reply: Reply, s: Step)
    requires
        fault_of(reply) is Some,
        s@ == asks(after(c, reply@)),
    ensures
        c.at is Connecting || c.at is Renaming || c.at is CreatingForServer || c.at is LocatingSource
            || c.at is LocatingDest || c.at is CreatingForContents || c.at is WritingContents
            || c.at is LocatingForRead || c.at is Opening || c.at is CreatingForRead ==> s
            == Step::Finished(Err(fault_of(reply)->0)),
        c.at is Reading || c.at is WritingChunk ==> s == Step::Close && after(c, reply@).at
            == At::Closing(fault_of(reply)),
        c.at is ServerCopying ==> (s matches Step::TakePrefetched(path) && path@ == c.source),
        c.at is Discarding ==> starts_over(c, s),
{
}

/// Whether a step is the one with which a copy starts that nothing was prepared
/// for: where server copies are allowed and both files lie on mounts of one
/// server, the destination is created for it; otherwise contents are looked for
/// that were read ahead.
pub open spec fn starts_over(c: Course, s: Step) -> bool {
    if c.enabled && c.source_mount is Some && c.dest_mount is Some && c.source_mount->0.server
        == c.dest_mount->0.server {
        creates_dest(s, c)
    } else {
        s matches Step::TakePrefetched(path) && path@ == c.source
    }
}

/// A copy starts with a backend for its source; then it is asked whether the server
/// made the copy before.
pub proof fn law_backend_comes_first(c: Course, mount: Mount, copies: bool, first: Step, second: Step)
    requires
        c.at == At::Connecting,
        first@ == asks(c),
        second@ == asks(after(c, Reply::Connected(mount, copies)@)),
    ensures
        first == Step::Connect,
        second matches Step::TakePrepared(path) && path@ == c.source,
        after(c, Reply::Connected(mount, copies)@).context == Some(
            (
                MountView {
                    server: mount.server@,
                    export: mount.export@,
                    point: mount.point@,
                },
                copies,
            ),
        ),
{
}

/// A copy that the server made before is moved to its place, and that is all; one
/// that was made for another place is removed, and the copy starts over.
pub proof fn law_prepared_copy_is_moved(
    c: Course,
    prepared: PreparedCopy,
    first: Step,
    second: Step,
    fresh: Step,
)
    requires
        c.at == At::TakingPrepared,
        ({
            let taken = after(c, Reply::Prepared(Some(prepared))@);
            &&& first@ == asks(taken)
            &&& second@ == asks(after(taken, Reply::Done@))
            &&& fresh@ == asks(after(c, Reply::Prepared(None)@))
        }),
    ensures
        components(prepared.dest@) == components(c.dest) ==> {
            &&& first matches Step::Rename(from, to) && from@ == prepared.temp@ && to@ == c.dest
            &&& second == Step::Finished(Ok(Some(Method::BatchedServerCopy)))
        },
        components(prepared.dest@) != components(c.dest) ==> {
            &&& first matches Step::Discard(temp) && temp@ == prepared.temp@
            &&& starts_over(c, second)
        },
        starts_over(c, fresh),
{
}

/// The server is asked to copy from the source to the destination by the names
/// that each of them has below the export of its own mount; where the backend
/// cannot copy, contents are looked for that were read ahead.
pub proof fn law_server_copies_by_own_names(
    c: Course,
    source: Vec<u8>,
    dest: Vec<u8>,
    first: Step,
    second: Step,
    third: Step,
    fourth: Step,
)
    requires
        c.at == At::CreatingForServer,
        c.source_mount is Some,
        c.dest_mount is Some,
        c.source_mount->0.point.len() > 0,
        c.dest_mount->0.point.len() > 0,
        components(c.source_mount->0.point).is_prefix_of(components(source@)),
        components(c.dest_mount->0.point).is_prefix_of(components(dest@)),
        ({
            let a = after(c, Reply::Done@);
            let b = after(a, Reply::Canonical(source)@);
            let d = after(b, Reply::Canonical(dest)@);
            &&& first@ == asks(a)
            &&& second@ == asks(b)
            &&& third@ == asks(d)
            &&& fourth@ == asks(after(d, Reply::Done@))
        }),
    ensures
        first matches Step::Canonicalize(p) && p@ == c.source,
        second matches Step::Canonicalize(p) && p@ == c.dest,
        c.context is Some && (c.context->0).1 ==> {
            &&& third matches Step::ServerCopy(from, to) && components(from@) == components(
                c.source_mount->0.export,
            ) + components(source@).skip(components(c.source_mount->0.point).len() as int)
                && components(to@) == components(c.dest_mount->0.export) + components(dest@).skip(
                components(c.dest_mount->0.point).len() as int,
            )
            &&& fourth == Step::Finished(Ok(Some(Method::ServerCopy)))
        },
        c.context is None || !(c.context->0).1 ==> (third matches Step::TakePrefetched(p) && p@
            == c.source),
{
    law_mounted_path_keeps_components(source@, c.source_mount->0);
    law_mounted_path_keeps_components(dest@, c.dest_mount->0);
}

/// A path that does not lie on the mount it is looked for on fails the copy.
pub proof fn law_outside_of_mount_fails(c: Course, path: Vec<u8>, s: Step)
    requires
        s@ == asks(after(c, Reply::Canonical(path)@)),
        ({
            ||| c.at is LocatingSource && c.source_mount is Some && !components(
                c.source_mount->0.point,
            ).is_prefix_of(components(path@))
            ||| c.at is LocatingDest && c.dest_mount is Some && !components(
                c.dest_mount->0.point,
            ).is_prefix_of(components(path@))
            ||| c.at is LocatingForRead && c.context is Some && !components(
                (c.context->0).0.point,
            ).is_prefix_of(components(path@))
        }),
    ensures
        s == Step::Finished(Err(CopyFault::Path(VfPathError::OutsideMount))),
{
}

/// What a copy is about never changes, and the backend only once, when it is set
/// up.
pub proof fn law_copy_keeps_its_files(c: Course, answer: Answer)
    ensures
        ({
            let n = after(c, answer);
            &&& n.source == c.source && n.dest == c.dest
            &&& n.source_mount == c.source_mount && n.dest_mount == c.dest_mount
            &&& n.enabled == c.enabled
            &&& !(c.at is Connecting) ==> n.context == c.context
            &&& !(c.at is WritingContents || c.at is WritingChunk) ==> n.written == c.written
        }),
{
}

/// Whether a reply is one to what is waited for.
pub open spec fn is_awaited(at: At, reply: Reply) -> bool {
    match at {
        At::Connecting => reply is Connected || fault_of(reply) is Some,
        At::TakingPrepared => reply is Prepared,
        At::TakingPrefetched => reply is Prefetched,
        At::LocatingSource | At::LocatingDest(_) | At::LocatingForRead => reply is Canonical
            || fault_of(reply) is Some,
        At::Reading => reply is Data || fault_of(reply) is Some,
        At::Declined | At::Copied(_) | At::Failed(_) => false,
        _ => reply is Done || fault_of(reply) is Some,
    }
}

/// A reply to what was not asked changes nothing.
pub proof fn law_stray_replies_change_nothing(c: Course, reply: Reply)
    requires
        !is_awaited(c.at, reply),
    ensures
        after(c, reply@) == c,
{
}

/// A copy that no backend makes says so, without an error.
pub proof fn law_declined_copies_say_so(c: Course, s: Step)
    requires
        s@ == asks(c),
    ensures
        c.at is Declined <==> s == Step::Finished(Ok(None)),
{
}

/// A backend can copy where it is an NFS server that speaks the protocol for that,
/// the second minor version.
pub proof fn law_which_backends_copy(b: Backend)
    ensures
        b.copies() <==> (b matches Backend::Nfs { supports_copy } && supports_copy),
        COPYING_MINOR == 2,
{
}

// ---------------------------------------------------------------------------
// Copies by the server, in a batch
// ---------------------------------------------------------------------------

/// The server is asked where that is allowed, for 2 to 4096 sources, and where the
/// target is a directory on a mount.
pub proof fn law_when_the_server_is_asked(enabled: bool, count: int, target: CopyTarget)
    ensures
        asks_server(enabled, count, target) <==> enabled && count >= 2 && count <= 4096
            && target.is_dir && target.mount is Some,
{
}

/// A temporary name is `.vfsi-cp-`, the number of the process, `-`, the number of
/// the run, `-`, and the place of the copy.
pub proof fn law_temp_names_tell_their_origin(pid: u32, nonce: u128, i: nat)
    ensures
        temp_name_spec(pid, nonce, i as int) == seq![46u8, 118, 102, 115, 105, 45, 99, 112, 45]
            + decimal(pid as nat) + seq![45u8] + decimal(nonce as nat) + seq![45u8] + decimal(i),
{
    assert(temp_name_spec(pid, nonce, i as int) =~= seq![46u8, 118, 102, 115, 105, 45, 99, 112, 45]
        + decimal(pid as nat) + seq![45u8] + decimal(nonce as nat) + seq![45u8] + decimal(i));
}

/// Whether a path ends in this name.
pub open spec fn ends_in(path: Seq<u8>, name: Seq<u8>) -> bool {
    components(path).len() > 0 && components(path).last() == Component::Normal(name)
}

/// Whether an earlier source ends in this name.
pub open spec fn name_came_before(sources: Seq<CopySource>, i: int, name: Seq<u8>) -> bool {
    exists|j: int| 0 <= j < i && ends_in((#[trigger] sources[j]).path@, name)
}

proof fn lemma_dest(s: CopySource, target: Seq<u8>)
    ensures
        dest_of(s, target) is Some <==> file_name_spec(s.path@) is Some,
        file_name_spec(s.path@) matches Some(n) ==> {
            &&& dest_of(s, target) is Some
            &&& components(dest_of(s, target)->0) == components(target).push(Component::Normal(n))
            &&& ends_in(s.path@, n)
        },
{
    lemma_file_name_is_plain(s.path@);
    if file_name_spec(s.path@) is Some {
        lemma_child_path(target, file_name_spec(s.path@)->0);
    }
}

proof fn lemma_taken(sources: Seq<CopySource>, i: int, target: Seq<u8>, name: Seq<u8>)
    requires
        0 <= i < sources.len(),
        ends_in(sources[i].path@, name),
    ensures
        dest_taken(sources, i, target) <==> name_came_before(sources, i, name),
{
    lemma_dest(sources[i], target);
    let dir = components(target);
    if dest_taken(sources, i, target) {
        let j = choose|j: int|
            0 <= j < i && dest_of(#[trigger] sources[j], target) is Some && components(
                dest_of(sources[j], target)->0,
            ) == components(dest_of(sources[i], target)->0);
        lemma_dest(sources[j], target);
        let m = file_name_spec(sources[j].path@)->0;
        assert(dir.push(Component::Normal(m)).last() == dir.push(Component::Normal(name)).last());
        assert(ends_in(sources[j].path@, name));
    }
    if name_came_before(sources, i, name) {
        let j = choose|j: int| 0 <= j < i && ends_in((#[trigger] sources[j]).path@, name);
        lemma_dest(sources[j], target);
        assert(dest_of(sources[j], target) is Some);
    }
}

/// The server is not asked for the sake of a source that is no regular file, lies
/// on no mount of the target's server, ends in no name or in the name of an earlier
/// one, or whose place is taken; and of no other.
pub proof fn law_when_a_source_is_refused(
    sources: Seq<CopySource>,
    i: int,
    target: CopyTarget,
    pid: u32,
    nonce: u128,
    name: Seq<u8>,
)
    requires
        0 <= i < sources.len(),
        target.mount is Some,
    ensures
        (forall|n: Seq<u8>| !#[trigger] ends_in(sources[i].path@, n)) ==> verdict(
            sources,
            i,
            target,
            pid,
            nonce,
        ) is Refused,
        ends_in(sources[i].path@, name) ==> (verdict(sources, i, target, pid, nonce) is Refused <==> {
            ||| !sources[i].is_file
            ||| sources[i].mount is None
            ||| (sources[i].mount->0).server@ != (target.mount->0).server@
            ||| sources[i].dest_exists
            ||| name_came_before(sources, i, name)
        }),
{
    lemma_dest(sources[i], target.path@);
    if ends_in(sources[i].path@, name) {
        lemma_taken(sources, i, target.path@, name);
    }
    if file_name_spec(sources[i].path@) is Some {
        assert(ends_in(sources[i].path@, file_name_spec(sources[i].path@)->0));
    }
}

/// Whether a canonical path lies on a mount.
pub open spec fn lies_on(canonical: Seq<u8>, mount: Mount) -> bool {
    components(mount.point@).is_prefix_of(components(canonical))
}

/// Where a path on a mount lies on the server: below the export, by the components
/// by which it lies below the mount point.
pub open spec fn place_on_server(canonical: Seq<Component>, mount: Mount) -> Seq<Component> {
    components(mount.export@) + canonical.skip(components(mount.point@).len() as int)
}

/// In a planned pair the first name leads to the source, from the export of the
/// source's own mount, and the second to the temporary file in the target, from the
/// export of the target's mount.
pub proof fn law_pairs_lead_to_source_and_target(
    sources: Seq<CopySource>,
    i: int,
    target: CopyTarget,
    pid: u32,
    nonce: u128,
    source: Seq<u8>,
    temp: Seq<u8>,
)
    requires
        0 <= i < sources.len(),
        verdict(sources, i, target, pid, nonce) == Verdict::Pair(source, temp),
        sources[i].mount matches Some(m) ==> m.point@.len() > 0,
        target.mount matches Some(m) && m.point@.len() > 0,
    ensures
        sources[i].mount matches Some(m) && (sources[i].canonical matches Ok(c) && lies_on(c@, m)
            && components(source) == place_on_server(components(c@), m)),
        target.canonical matches Ok(dir) && components(temp) == place_on_server(
            components(dir@).push(Component::Normal(temp_name_spec(pid, nonce, i))),
            target.mount->0,
        ),
{
    let name = temp_name_spec(pid, nonce, i);
    law_temp_names_differ(pid, nonce, i, i);
    lemma_child_path(target.path@, name);
    let m = sources[i].mount->0;
    let c = sources[i].canonical->Ok_0;
    law_mounted_path_keeps_components(c@, m@);
    let dir = target.canonical->Ok_0;
    lemma_child_path(dir@, name);
    law_mounted_path_keeps_components(join_spec(dir@, name), (target.mount->0)@);
}

/// Whether a source can be copied by the server that the target lies on.
pub open spec fn can_be_copied(s: CopySource, target: CopyTarget) -> bool {
    &&& s.is_file
    &&& !s.dest_exists
    &&& file_name_spec(s.path@) is Some
    &&& s.mount matches Some(m) && m.point@.len() > 0 && m.server@ == (target.mount->0).server@ && (
    s.canonical matches Ok(c) && lies_on(c@, m))
}

/// Regular files on mounts of the target's server, with free and different places,
/// are all planned for, whether or not they lie on the target's mount.
pub proof fn law_batches_are_planned_whole(
    sources: Seq<CopySource>,
    target: CopyTarget,
    pid: u32,
    nonce: u128,
)
    requires
        target.mount matches Some(m) && m.point@.len() > 0 && (target.canonical matches Ok(dir)
            && lies_on(dir@, m)),
        forall|i: int| 0 <= i < sources.len() ==> can_be_copied(#[trigger] sources[i], target),
        forall|i: int, j: int|
            0 <= i < j < sources.len() ==> components((#[trigger] sources[i]).path@).last()
                != components((#[trigger] sources[j]).path@).last(),
    ensures
        forall|i: int|
            0 <= i < sources.len() ==> (#[trigger] verdict(sources, i, target, pid, nonce)) is Pair,
        first_stop(sources, 0, target, pid, nonce) == sources.len(),
{
    assert forall|i: int| 0 <= i < sources.len() implies (#[trigger] verdict(
        sources,
        i,
        target,
        pid,
        nonce,
    )) is Pair by {
        let s = sources[i];
        assert(can_be_copied(s, target));
        lemma_dest(s, target.path@);
        let n = file_name_spec(s.path@)->0;
        lemma_taken(sources, i, target.path@, n);
        assert(!name_came_before(sources, i, n)) by {
            if name_came_before(sources, i, n) {
                let j = choose|j: int| 0 <= j < i && ends_in((#[trigger] sources[j]).path@, n);
                assert(components(sources[j].path@).last() != components(sources[i].path@).last());
            }
        }
        let m = s.mount->0;
        law_mounted_path_keeps_components((s.canonical->Ok_0)@, m@);
        let name = temp_name_spec(pid, nonce, i);
        law_temp_names_differ(pid, nonce, i, i);
        lemma_child_path(target.path@, name);
        law_parent_holds_file_name(join_spec(target.path@, name));
        let dir = (target.canonical->Ok_0)@;
        lemma_child_path(dir, name);
        let point = components((target.mount->0).point@);
        assert(point.is_prefix_of(components(dir).push(Component::Normal(name)))) by {
            assert(point =~= components(dir).push(Component::Normal(name)).subrange(
                0,
                point.len() as int,
            ));
        }
        law_mounted_path_keeps_components(join_spec(dir, name), (target.mount->0)@);
    }
    lemma_all_pairs(sources, 0, target, pid, nonce);
}

proof fn lemma_all_pairs(
    sources: Seq<CopySource>,
    from: int,
    target: CopyTarget,
    pid: u32,
    nonce: u128,
)
    requires
        0 <= from <= sources.len(),
        forall|i: int|
            0 <= i < sources.len() ==> (#[trigger] verdict(sources, i, target, pid, nonce)) is Pair,
    ensures
        first_stop(sources, from, target, pid, nonce) == sources.len(),
    decreases sources.len() - from,
{
    if from < sources.len() {
        lemma_all_pairs(sources, from + 1, target, pid, nonce);
    }
}

/// A batch ends at the first source that makes no pair, if there is one.
pub proof fn law_batch_ends_at_first_stop(
    sources: Seq<CopySource>,
    from: int,
    target: CopyTarget,
    pid: u32,
    nonce: u128,
)
    requires
        0 <= from <= sources.len(),
    ensures
        ({
            let stop = first_stop(sources, from, target, pid, nonce);
            &&& from <= stop <= sources.len()
            &&& forall|i: int|
                from <= i < stop ==> (#[trigger] verdict(sources, i, target, pid, nonce)) is Pair
            &&& stop < sources.len() ==> !(verdict(sources, stop, target, pid, nonce) is Pair)
        }),
    decreases sources.len() - from,
{
    if from < sources.len() && verdict(sources, from, target, pid, nonce) is Pair {
        law_batch_ends_at_first_stop(sources, from + 1, target, pid, nonce);
    }
}

/// A source that is not refused fails the batch where its canonical form, or that
/// of the target, is not known, with that failure, and where the source does not
/// lie on its own mount.
pub proof fn law_when_a_batch_fails(
    sources: Seq<CopySource>,
    i: int,
    target: CopyTarget,
    pid: u32,
    nonce: u128,
)
    requires
        0 <= i < sources.len(),
        target.mount is Some,
        !(verdict(sources, i, target, pid, nonce) is Refused),
    ensures
        sources[i].canonical matches Err(e) ==> verdict(sources, i, target, pid, nonce)
            == Verdict::Failed(CopyError::Io(e)),
        sources[i].canonical matches Ok(c) ==> {
            &&& !lies_on(c@, sources[i].mount->0) ==> verdict(sources, i, target, pid, nonce)
                == Verdict::Failed(CopyError::Path(VfPathError::OutsideMount))
            &&& lies_on(c@, sources[i].mount->0) ==> (target.canonical matches Err(e) ==> verdict(
                sources,
                i,
                target,
                pid,
                nonce,
            ) == Verdict::Failed(CopyError::Io(e)))
            &&& lies_on(c@, sources[i].mount->0) ==> (target.canonical matches Ok(dir) ==> (
            !components((target.mount->0).point@).is_prefix_of(
                components(dir@).push(Component::Normal(temp_name_spec(pid, nonce, i))),
            ) ==> verdict(sources, i, target, pid, nonce) == Verdict::Failed(
                CopyError::Path(VfPathError::OutsideMount),
            )))
        },
{
    let name = temp_name_spec(pid, nonce, i);
    law_temp_names_differ(pid, nonce, i, i);
    lemma_child_path(target.path@, name);
    law_parent_holds_file_name(join_spec(target.path@, name));
    if target.canonical is Ok {
        lemma_child_path((target.canonical->Ok_0)@, name);
    }
}

/// A planned copy is kept for its own source; it goes to the name of the source in
/// the target, by way of its temporary name there.
pub proof fn law_plans_tell_where_copies_go(
    plan: CopyPlan,
    sources: Seq<CopySource>,
    i: int,
    target: CopyTarget,
    pid: u32,
    nonce: u128,
)
    requires
        0 <= i < sources.len(),
        plans_copy(plan, sources, i, target, pid, nonce),
    ensures
        verdict(sources, i, target, pid, nonce) == Verdict::Pair(
            plan.pairs@[i].0@,
            plan.pairs@[i].1@,
        ),
        plan.plans@[i].0@ == sources[i].path@,
        components(plan.plans@[i].1.dest@) == components(target.path@).push(
            components(sources[i].path@).last(),
        ),
        components(plan.plans@[i].1.temp@) == components(target.path@).push(
            Component::Normal(temp_name_spec(pid, nonce, i)),
        ),
{
    lemma_dest(sources[i], target.path@);
    law_temp_names_differ(pid, nonce, i, i);
    lemma_child_path(target.path@, temp_name_spec(pid, nonce, i));
}

/// A copy that was prepared before stays, unless one for the same source came in.
pub proof fn law_prepared_copies_stay(
    before: Map<Seq<Component>, PreparedCopy>,
    plans: Seq<(Vec<u8>, PreparedCopy)>,
    key: Seq<Component>,
)
    requires
        forall|i: int| 0 <= i < plans.len() ==> components((#[trigger] plans[i]).0@) != key,
    ensures
        with_plans(before, plans).dom().contains(key) == before.dom().contains(key),
        with_plans(before, plans)[key] == before[key],
    decreases plans.len(),
{
    if plans.len() > 0 {
        let front = plans.drop_last();
        assert forall|i: int| 0 <= i < front.len() implies components((#[trigger] front[i]).0@)
            != key by {
            assert(front[i] == plans[i]);
        }
        law_prepared_copies_stay(before, front, key);
        assert(plans.last() == plans[plans.len() - 1]);
    }
}

/// What is listed of a map are its values, one for each key and for nothing else.
pub proof fn law_listed_values_are_those_of_the_map<V>(
    m: Map<Seq<Component>, V>,
    keys: Seq<Seq<Component>>,
    values: Seq<V>,
    key: Seq<Component>,
    k: int,
)
    requires
        lists_values(m, keys, values),
        0 <= k < values.len(),
    ensures
        keys.len() == values.len(),
        m.dom().contains(keys[k]) && values[k] == m[keys[k]],
        m.dom().contains(key) <==> keys.contains(key),
        forall|l: int| 0 <= l < keys.len() && l != k ==> #[trigger] keys[l] != keys[k],
        holds_value(m, values[k]),
{
    assert(keys.to_set().contains(keys[k]));
    assert(keys.contains(key) == keys.to_set().contains(key));
}

/// The temporary files that are left are those of the copies that are kept, one for
/// each copy.
pub proof fn law_leftovers_are_the_temporary_files(
    m: Map<Seq<Component>, PreparedCopy>,
    keys: Seq<Seq<Component>>,
    temps: Seq<Vec<u8>>,
    key: Seq<Component>,
    k: int,
)
    requires
        lists_temps(m, keys, temps),
        0 <= k < temps.len(),
    ensures
        keys.len() == temps.len(),
        m.dom().contains(keys[k]) && temps[k] == m[keys[k]].temp,
        m.dom().contains(key) <==> keys.contains(key),
        forall|l: int| 0 <= l < keys.len() && l != k ==> #[trigger] keys[l] != keys[k],
{
    assert(keys.to_set().contains(keys[k]));
    assert(keys.contains(key) == keys.to_set().contains(key));
}

/// A file that belongs to no prepared copy is not taken for a temporary file.
pub proof fn law_only_temporary_files_are_left_over(
    m: Map<Seq<Component>, PreparedCopy>,
    file: Vec<u8>,
)
    requires
        forall|key: Seq<Component>| #[trigger] m.dom().contains(key) ==> m[key].temp != file,
    ensures
        !is_prepared_temp(m, file),
{
}

/// The search for an ancestor that exists ends at the nearest one: each step of it
/// leaves out one more component from the end of the path, and none of the paths
/// before was there.
pub proof fn law_nearest_ancestor_is_found(path: Seq<u8>, there: Seq<bool>, found: Seq<u8>)
    requires
        is_found(path, there, found),
    ensures
        ({
            let n = components(path).len() - components(found).len();
            &&& 0 <= n < there.len()
            &&& components(found) == components(path).take(components(found).len() as int)
            &&& forall|k: int| 0 <= k < n ==> !#[trigger] there[k]
            &&& there[n] || components(found).len() == 0 || components(found).last()
                == Component::RootDir
        }),
{
    let at = choose|at: int| #[trigger] search_ends(path, there, at, found);
    crate::copy::law_parents_lead_up(path, at);
    lemma_spans(found);
}

// ---------------------------------------------------------------------------
// Removing
// ---------------------------------------------------------------------------

/// The directory that holds a path and the name of the path make up the path: the
/// directory has all components but the last, and is `.` where there is no other;
/// the last component is the name.
pub proof fn law_holding_dir_and_name_make_the_path(path: Seq<u8>, name: Seq<u8>)
    ensures
        file_name_spec(path) == Some(name) <==> components(path).len() > 0 && components(path).last()
            == Component::Normal(name),
        file_name_spec(path) == Some(name) && components(path).len() > 1 ==> components(
            holding_dir(path),
        ) == components(path).drop_last(),
        file_name_spec(path) == Some(name) && components(path).len() == 1 ==> holding_dir(path)
            == seq![46u8],
{
    if file_name_spec(path) == Some(name) {
        law_parent_holds_file_name(path);
        law_parent_drops_last_component(path);
        lemma_spans(path);
        let p = parent_spec(path)->0;
        if p.len() == 0 {
            lemma_spans(p);
        }
    }
}

/// What is removed lies on the mount that the directory lies on, and not on the
/// mount point itself; and whatever lies so can be removed.
pub proof fn law_what_can_be_removed(dir: Seq<u8>, name: Seq<u8>, mounts: Seq<char>)
    ensures
        ({
            let found = last_longest(mounts_over(dir, lines_spec(mounts)));
            let whole = components(join_spec(dir, name));
            &&& removal(dir, name, mounts) matches Some(r) ==> found == Some(r.0)
            &&& removal(dir, name, mounts) is Some <==> (found matches Some(m) && components(
                m.point,
            ).is_prefix_of(whole) && components(m.point) != whole)
        }),
{
}

} // verus!
