//! What is asked of a backend and what its answers stand for, told by paths and
//! their components.
use crate::attrs::{listed_attributes, VfAttrs, VfError};
use crate::batch::{
    after, asks, is_among, keeps, mount_view, picked, places_view, request_end, sane, text_view,
    total_len, Answer, At, BatchSource, Course, Reply, Step, DEFAULT_BATCH_BYTES,
};
use crate::config::{Config, Format};
use crate::entry::same_attrs;
use crate::entry_laws::are_places;
use crate::listing::{lemma_set_places, set_places};
use crate::meta::{LsDirEntry, LsReadDir};
use crate::mount::{
    law_mounted_path_keeps_components, vf_path_spec, ImplChoice, Mount, MountView,
};
use crate::open::{
    all_on, context_view, each_once, first_unlisted, holds_reports, is_new, is_reported, is_request,
    new_places, paths_view, vpaths_of, Connection, Environment, Request,
};
use crate::path::{
    body_components, component_of, components, lemma_child_path,
    lemma_file_name_is_plain, lemma_join_components, lemma_spans, lemma_tail_components,
    spans_spec, tail_from, Component,
};
use crate::security::lossy_text;
use crate::walk::{
    component_texts, flags_view, is_rendered, rendered_flags, seen_from, walked_name_spec,
};
use vstd::prelude::*;
use vstd::utf8::{encode_utf8, valid_utf8};

verus! {

// ---------------------------------------------------------------------------
// Requests
// ---------------------------------------------------------------------------

/// A request is for a mount, names the directories, and asks for eleven attributes,
/// and in the long format for one more. A backend is set up for it where none is
/// there that serves the mount: the local file system below the mount point, or the
/// server on this host.
pub proof fn law_requests_say_what_is_wanted(
    r: Request,
    choice: ImplChoice,
    context: Option<Seq<u8>>,
    found: Seq<u8>,
    directories: Seq<Seq<u8>>,
    config: Config,
)
    requires
        is_request(r, choice, context, found, directories, config),
    ensures
        r.mountpoint@ == found,
        r.directories@.len() == directories.len(),
        forall|i: int| 0 <= i < directories.len() ==> (#[trigger] r.directories@[i])@ == directories[i],
        r.mask.bits == (if config.format == Format::Long {
            0xfffu32
        } else {
            0x7ffu32
        }),
        r.connection is None <==> context is Some && components(context->0) == components(found),
        r.connection is Some && choice == ImplChoice::Dummy ==> (r.connection->0 matches
            Connection::Dummy(root) && root@ == found),
        r.connection is Some && choice == ImplChoice::Nfs ==> (r.connection->0 matches
            Connection::Nfs(host) && host@ == seq!['1', '2', '7', '.', '0', '.', '0', '.', '1']),
{
    reveal_strlit("127.0.0.1");
    assert("127.0.0.1"@ =~= seq!['1', '2', '7', '.', '0', '.', '0', '.', '1']);
    assert((0x1u32 | 0x2 | 0x4 | 0x8 | 0x10 | 0x20 | 0x40 | 0x80 | 0x100 | 0x200 | 0x400) == 0x7ff)
        by (bit_vector);
    assert((0x7ffu32 | 0x800) == 0xfff) by (bit_vector);
    assert(listed_attributes() == 0x7ff);
    let named = paths_view(r.directories@);
    assert(named.len() == r.directories@.len());
    assert forall|i: int| 0 <= i < directories.len() implies (#[trigger] r.directories@[i])@
        == directories[i] by {
        assert(named[i] == r.directories@[i]@);
    }
}

/// The environment chooses the backend by its variable, and tells mount points by
/// its mount table; without a table there is none.
pub proof fn law_environment_decides(env: Environment, canonical: Seq<u8>)
    ensures
        env.implementation is None ==> env.choice() is None,
        env.implementation matches Some(v) ==> env.choice() == crate::mount::chosen(Some(v@)),
        env.mounts is None ==> env.mountpoint(canonical) is None,
        env.mounts matches Some(t) ==> env.mountpoint(canonical) == crate::mount::longest_point(
            canonical,
            crate::text::lines_spec(t@),
        ),
{
}

/// Directories are asked for together where each has a mount point, and all of these
/// name one place.
pub proof fn law_batches_lie_on_one_mount(
    env: Environment,
    canonical: Seq<Vec<u8>>,
    point: Seq<u8>,
)
    ensures
        all_on(env, canonical, point) <==> forall|i: int|
            0 <= i < canonical.len() ==> env.mountpoint((#[trigger] canonical[i])@) is Some
                && components(env.mountpoint(canonical[i]@)->0) == components(point),
        vpaths_of(point, canonical).len() == canonical.len(),
        forall|i: int|
            0 <= i < canonical.len() ==> #[trigger] vpaths_of(point, canonical)[i] == vf_path_spec(
                point,
                canonical[i]@,
            ),
{
}

/// Whether no directory before this one is the same.
pub open spec fn comes_first(vpaths: Seq<Seq<u8>>, i: int) -> bool {
    forall|j: int| 0 <= j < i ==> components(#[trigger] vpaths[j]) != components(vpaths[i])
}

/// The directories of a batch that are asked for are those that come up for the
/// first time, in their order.
pub proof fn law_directories_are_asked_for_in_order(vpaths: Seq<Seq<u8>>)
    ensures
        are_places(new_places(vpaths), vpaths.len() as int, |i: int| comes_first(vpaths, i)),
        each_once(vpaths).len() == new_places(vpaths).len(),
        forall|k: int|
            0 <= k < each_once(vpaths).len() ==> #[trigger] each_once(vpaths)[k]
                == vpaths[new_places(vpaths)[k]],
{
    let flags = Seq::new(vpaths.len(), |i: int| is_new(vpaths, i));
    let places = new_places(vpaths);
    lemma_set_places(flags);
    assert forall|i: int| #[trigger] places.contains(i) <==> 0 <= i < vpaths.len() && comes_first(
        vpaths,
        i,
    ) by {
        if places.contains(i) {
            let k = choose|k: int| 0 <= k < places.len() && places[k] == i;
            assert(flags[places[k]]);
            assert(is_new(vpaths, i));
        }
        if 0 <= i < vpaths.len() && comes_first(vpaths, i) {
            assert(is_new(vpaths, i));
            assert(flags[i]);
        }
    }
}

/// A failure strikes the directory that it names by its place among those that were
/// asked for, the first one where it names none, and the last one where it names no
/// such place; what counts as not listed starts where that directory comes up first.
pub proof fn law_failure_strikes_where_it_says(
    vpaths: Seq<Seq<u8>>,
    error: Option<VfError>,
    struck: int,
)
    requires
        vpaths.len() > 0,
        error matches Some(e) ==> {
            let asked = each_once(vpaths).len();
            &&& e.index is None ==> struck == 0
            &&& e.index is Some && e.index->0 < asked ==> struck == e.index->0
            &&& e.index is Some && e.index->0 >= asked ==> struck == asked - 1
        },
    ensures
        error is None ==> first_unlisted(vpaths, error) == vpaths.len(),
        error is Some ==> {
            let at = first_unlisted(vpaths, error);
            &&& 0 <= struck < each_once(vpaths).len()
            &&& 0 <= at < vpaths.len()
            &&& vpaths[at] == each_once(vpaths)[struck]
            &&& comes_first(vpaths, at)
        },
{
    law_directories_are_asked_for_in_order(vpaths);
    let places = new_places(vpaths);
    assert(comes_first(vpaths, 0));
    assert(places.contains(0));
    if error is Some {
        let at = first_unlisted(vpaths, error);
        assert(at == places[struck]);
        assert(places.contains(at));
    }
}

/// A reported file is the entry of that name in the directory, with what was
/// reported of it.
pub proof fn law_reports_become_entries(e: LsDirEntry, dir: Seq<u8>, a: VfAttrs, name: Seq<u8>)
    requires
        is_reported(e, dir, a),
        a.path is Some,
        components((a.path->0)@).len() > 0,
        components((a.path->0)@).last() == Component::Normal(name),
    ensures
        e matches LsDirEntry::Vf { path, name: shown, attrs } && shown@ == name && components(path@)
            == components(dir).push(Component::Normal(name)) && same_attrs(a, attrs),
{
    lemma_file_name_is_plain((a.path->0)@);
    lemma_child_path(dir, name);
}

/// A report without a name stands for the directory, under an empty name.
pub proof fn law_nameless_reports_stand_for_the_directory(e: LsDirEntry, dir: Seq<u8>, a: VfAttrs)
    requires
        is_reported(e, dir, a),
        a.path is None || components((a.path->0)@).len() == 0 || !(components(
            (a.path->0)@,
        ).last() is Normal),
        dir.len() > 0,
    ensures
        e matches LsDirEntry::Vf { path, name, attrs } && name@.len() == 0 && components(path@)
            == components(dir) && same_attrs(a, attrs),
{
    let none = Seq::<u8>::empty();
    lemma_join_components(dir, none);
    assert(body_components(none) =~= Seq::<Component>::empty());
    assert(components(dir) + Seq::<Component>::empty() =~= components(dir));
}

/// An open directory hands out what was reported, in that order, and no failure.
pub proof fn law_open_directories_hold_their_reports(
    rd: LsReadDir,
    dir: Seq<u8>,
    reports: Seq<VfAttrs>,
    k: int,
)
    requires
        holds_reports(rd, dir, reports),
        0 <= k < reports.len(),
    ensures
        rd@.len() == reports.len(),
        rd@[k] is Ok && is_reported(rd@[k]->Ok_0, dir, reports[k]),
{
}

// ---------------------------------------------------------------------------
// Walked trees
// ---------------------------------------------------------------------------

proof fn lemma_texts(p: Seq<u8>)
    ensures
        component_texts(p).len() == components(p).len(),
        forall|k: int|
            0 <= k < components(p).len() ==> {
                &&& (#[trigger] components(p)[k]) is Normal ==> component_texts(p)[k]
                    == components(p)[k]->Normal_0
                &&& components(p)[k] is ParentDir ==> component_texts(p)[k] == seq![46u8, 46u8]
                &&& components(p)[k] is CurDir ==> component_texts(p)[k] == seq![46u8]
                &&& components(p)[k] is RootDir ==> component_texts(p)[k] == seq![47u8]
            },
{
    assert forall|k: int| 0 <= k < components(p).len() implies {
        &&& (#[trigger] components(p)[k]) is Normal ==> component_texts(p)[k]
            == components(p)[k]->Normal_0
        &&& components(p)[k] is ParentDir ==> component_texts(p)[k] == seq![46u8, 46u8]
        &&& components(p)[k] is CurDir ==> component_texts(p)[k] == seq![46u8]
        &&& components(p)[k] is RootDir ==> component_texts(p)[k] == seq![47u8]
    } by {
        let s = p.subrange(spans_spec(p)[k].0, spans_spec(p)[k].1);
        assert(component_texts(p)[k] == s);
        assert(components(p)[k] == component_of(s));
    }
}

/// The names that lead from the root of a walk to a directory are the components by
/// which it lies below the root, one name for each; a path that is not below the root
/// is named by all of its components.
pub proof fn law_names_lead_from_the_root(root: Seq<u8>, path: Seq<u8>, k: int)
    requires
        root.len() > 0,
        ({
            let n = components(root).len() as int;
            let below = if components(root).is_prefix_of(components(path)) {
                components(path).skip(n)
            } else {
                components(path)
            };
            0 <= k < below.len()
        }),
    ensures
        ({
            let n = components(root).len() as int;
            let below = if components(root).is_prefix_of(components(path)) {
                components(path).skip(n)
            } else {
                components(path)
            };
            let names = component_texts(seen_from(root, path));
            &&& names.len() == below.len()
            &&& below[k] is Normal ==> names[k] == below[k]->Normal_0
            &&& below[k] is ParentDir ==> names[k] == seq![46u8, 46u8]
            &&& below[k] is CurDir ==> names[k] == seq![46u8]
            &&& below[k] is RootDir ==> names[k] == seq![47u8]
        }),
{
    let n = components(root).len() as int;
    lemma_spans(root);
    let seen = seen_from(root, path);
    lemma_texts(seen);
    if components(root).is_prefix_of(components(path)) {
        lemma_tail_components(path, n);
        assert(seen == tail_from(path, n));
    }
}

/// A directory is listed only where every name that leads to it is displayed, and a
/// first one is listed where that is so.
pub proof fn law_directories_with_hidden_names_are_left_out(shown: Seq<Seq<bool>>, i: int, k: int)
    requires
        0 <= i < shown.len(),
        0 <= k < shown[i].len(),
    ensures
        !shown[i][k] ==> !is_rendered(shown, i),
        i == 0 && (forall|l: int| 0 <= l < shown[i].len() ==> shown[i][l]) ==> is_rendered(shown, i),
{
}

/// The directories of a walk that are listed are all that are to be, in the order of
/// the walk.
pub proof fn law_rendered_directories_come_in_order(shown: Seq<Vec<bool>>)
    ensures
        flags_view(shown).len() == shown.len(),
        forall|i: int| 0 <= i < shown.len() ==> #[trigger] flags_view(shown)[i] == shown[i]@,
        are_places(
            set_places(rendered_flags(flags_view(shown))),
            shown.len() as int,
            |i: int| is_rendered(flags_view(shown), i),
        ),
{
    let flags = rendered_flags(flags_view(shown));
    let places = set_places(flags);
    lemma_set_places(flags);
    assert forall|i: int| #[trigger] places.contains(i) <==> 0 <= i < shown.len() && is_rendered(
        flags_view(shown),
        i,
    ) by {
        if places.contains(i) {
            let k = choose|k: int| 0 <= k < places.len() && places[k] == i;
            assert(flags[places[k]]);
        }
        if 0 <= i < shown.len() && is_rendered(flags_view(shown), i) {
            assert(flags[i]);
        }
    }
}

/// A walked file is shown by its own name, where that is text, and otherwise by what
/// of it is.
pub proof fn law_walked_files_keep_their_names(a: VfAttrs, name: Seq<u8>)
    requires
        a.path is Some,
        components((a.path->0)@).len() > 0,
        components((a.path->0)@).last() == Component::Normal(name),
    ensures
        valid_utf8(name) ==> walked_name_spec(a) == name,
        !valid_utf8(name) ==> walked_name_spec(a) == encode_utf8(lossy_text(name)),
{
}

// ---------------------------------------------------------------------------
// Reading ahead
// ---------------------------------------------------------------------------

/// Whether two mounts are one: they are on one server, and their directories name
/// the same places.
pub open spec fn are_one(a: Mount, b: Mount) -> bool {
    a.server@ == b.server@ && components(a.export@) == components(b.export@) && components(a.point@)
        == components(b.point@)
}

/// Whether an earlier source is the same file.
pub open spec fn path_came_before(sources: Seq<BatchSource>, i: int) -> bool {
    exists|j: int|
        0 <= j < i && components((#[trigger] sources[j]).path@) == components(sources[i].path@)
}

/// Whether a source is taken after those already chosen: it is a regular file on
/// their mount, it did not come before, the bytes that are left suffice for it, and
/// neither 4096 files nor all bytes are taken yet.
pub open spec fn is_taken(
    sources: Seq<BatchSource>,
    i: int,
    max: int,
    chosen: Seq<int>,
    total: int,
) -> bool {
    &&& chosen.len() < 4096
    &&& chosen.len() > 0 ==> total < max
    &&& !path_came_before(sources, i)
    &&& sources[i].file_len is Some && total + sources[i].file_len->0 <= max
    &&& sources[i].mount is Some && (chosen.len() > 0 ==> (sources[chosen[0]].mount matches Some(
        first,
    ) && are_one(first, sources[i].mount->0)))
}

proof fn lemma_picked(sources: Seq<BatchSource>, max: int, i: int)
    requires
        0 <= max,
        0 <= i <= sources.len(),
    ensures
        ({
            let p = picked(sources, max, i);
            &&& p.full <==> p.chosen.len() >= 4096 || (p.chosen.len() > 0 && p.total >= max)
            &&& p.chosen.len() == 0 ==> p.mount is None
            &&& p.chosen.len() > 0 ==> 0 <= p.chosen[0] < i && (
            sources[p.chosen[0]].mount matches Some(m) && p.mount == Some(m@))
            &&& p.total <= max
            &&& p.chosen.len() <= 4096
        }),
    decreases i,
{
    if i > 0 {
        lemma_picked(sources, max, i - 1);
    }
}

/// Of the sources from the first on, each is read ahead that can be taken after
/// those before it, and no other; what is read ahead grows by its length.
pub proof fn law_what_is_read_ahead(sources: Seq<BatchSource>, max: int, i: int)
    requires
        0 <= max,
        0 <= i < sources.len(),
    ensures
        picked(sources, max, 0).chosen.len() == 0,
        picked(sources, max, 0).total == 0,
        ({
            let before = picked(sources, max, i);
            let now = picked(sources, max, i + 1);
            if is_taken(sources, i, max, before.chosen, before.total) {
                &&& now.chosen == before.chosen.push(i)
                &&& now.total == before.total + sources[i].file_len->0
            } else {
                &&& now.chosen == before.chosen
                &&& now.total == before.total
            }
        }),
        picked(sources, max, i + 1).chosen.len() > 0 ==> (sources[picked(
            sources,
            max,
            i + 1,
        ).chosen[0]].mount matches Some(m) && picked(sources, max, i + 1).mount == Some(
            MountView { server: m.server@, export: m.export@, point: m.point@ },
        )),
{
    lemma_picked(sources, max, i);
    lemma_picked(sources, max, i + 1);
    assert(is_among(sources, i, components(sources[i].path@)) == path_came_before(sources, i));
}

/// The places and the mount of a batch are told as they are.
pub proof fn law_batches_tell_places_and_mount(selected: Seq<usize>, mount: Mount)
    ensures
        places_view(selected).len() == selected.len(),
        forall|k: int| 0 <= k < selected.len() ==> #[trigger] places_view(selected)[k] == selected[k],
        mount_view(None) is None,
        mount_view(Some(mount)) == Some(
            MountView { server: mount.server@, export: mount.export@, point: mount.point@ },
        ),
{
}

/// What chosen sources are long together is what each is long, added.
pub proof fn law_lengths_add_up(sources: Seq<BatchSource>, chosen: Seq<int>, i: int)
    ensures
        total_len(sources, Seq::empty()) == 0,
        sources[i].file_len matches Some(n) ==> total_len(sources, chosen.push(i)) == total_len(
            sources,
            chosen,
        ) + n,
{
    assert(chosen.push(i).drop_last() =~= chosen);
}

/// A setting is the text that it was given; 64 MiB are read ahead where nothing else
/// is said.
pub proof fn law_settings_are_as_given(value: Option<&str>, context: Option<&[u8]>)
    ensures
        value is None ==> text_view(value) is None,
        value matches Some(v) ==> text_view(value) == Some(v@),
        context is None ==> context_view(context) is None,
        context matches Some(m) ==> context_view(context) == Some(m@),
        DEFAULT_BATCH_BYTES == 64 * 1024 * 1024,
{
}

/// A request is for the next eight files, or for those that are left.
pub proof fn law_files_in_a_request(c: Course)
    requires
        sane(c),
    ensures
        c.paths.len() - c.from >= 8 ==> request_end(c) == c.from + 8,
        c.paths.len() - c.from < 8 ==> request_end(c) == c.paths.len(),
{
}

/// Whether a step asks for the canonical form of this path.
pub open spec fn locates(path: Seq<u8>, s: Step) -> bool {
    s matches Step::Canonicalize(p) && p@ == path
}

/// Reading ahead starts with a backend for the mount of the files; then the files
/// are located, from the first on, or there is nothing to do.
pub proof fn law_reading_ahead_starts_with_a_backend(
    c: Course,
    mount: Mount,
    first: Step,
    second: Step,
    failed: Step,
)
    requires
        sane(c),
        c.at == At::Connecting,
        first@ == asks(c),
        second@ == asks(after(c, Reply::Connected(mount)@)),
        failed@ == asks(after(c, Reply::Failed@)),
    ensures
        first matches Step::Connect(m) && m.server@ == c.mount.server && m.export@ == c.mount.export
            && m.point@ == c.mount.point,
        c.paths.len() > 0 ==> locates(c.paths[0], second),
        c.paths.len() == 0 ==> second == Step::Done(true),
        failed == Step::Done(false),
        after(c, Reply::Connected(mount)@).context == Some(
            MountView { server: mount.server@, export: mount.export@, point: mount.point@ },
        ),
{
}

/// A file that was located is named by the components by which it lies below the
/// mount point, from the export on; then the next file of the request is located,
/// or the request is made, with the names of all of them.
pub proof fn law_located_files_are_named(c: Course, path: Vec<u8>, s: Step)
    requires
        sane(c),
        c.at == At::Locating,
        c.context is Some && c.context->0.point.len() > 0,
        components(c.context->0.point).is_prefix_of(components(path@)),
        s@ == asks(after(c, Reply::Canonical(path)@)),
    ensures
        ({
            let n = after(c, Reply::Canonical(path)@);
            let next = c.from + c.names.len() + 1;
            &&& n.from == c.from
            &&& n.names.len() == c.names.len() + 1
            &&& n.names.drop_last() == c.names
            &&& components(n.names.last()) == components(c.context->0.export) + components(
                path@,
            ).skip(components(c.context->0.point).len() as int)
            &&& next < c.paths.len() && next < c.from + 8 ==> locates(c.paths[next], s)
            &&& next >= c.paths.len() || next >= c.from + 8 ==> (s matches Step::Read(names)
                && names@.len() == n.names.len() && forall|k: int|
                0 <= k < names@.len() ==> (#[trigger] names@[k])@ == n.names[k])
        }),
{
    law_mounted_path_keeps_components(path@, c.context->0);
    let n = after(c, Reply::Canonical(path)@);
    assert(n.names.drop_last() =~= c.names);
    if s is Read {
        let names = s->Read_0;
        assert(paths_view(names@) == n.names);
        assert forall|k: int| 0 <= k < names@.len() implies (#[trigger] names@[k])@
            == n.names[k] by {
            assert(paths_view(names@)[k] == names@[k]@);
        }
    }
}

/// What was read is kept by the paths of the files of the request, first to first;
/// then the files behind them are located, or all is done. A failure ends it.
pub proof fn law_what_was_read_is_kept(
    c: Course,
    contents: Vec<Vec<u8>>,
    before: Map<Seq<Component>, Vec<u8>>,
    s: Step,
    failed: Step,
)
    requires
        sane(c),
        c.at == At::Reading,
        s@ == asks(after(c, Reply::Contents(contents)@)),
        failed@ == asks(after(c, Reply::Failed@)),
        forall|i: int, j: int|
            0 <= i < j < c.paths.len() ==> components(#[trigger] c.paths[i]) != components(
                #[trigger] c.paths[j],
            ),
    ensures
        forall|i: int|
            c.from <= i < c.from + 8 && i < c.paths.len() && i - c.from < contents@.len() ==> {
                let map = keeps(c, Reply::Contents(contents)@, before);
                &&& map.dom().contains(components(#[trigger] c.paths[i]))
                &&& map[components(c.paths[i])] == contents@[i - c.from]
            },
        c.from + 8 < c.paths.len() ==> locates(c.paths[c.from + 8], s),
        c.from + 8 >= c.paths.len() ==> s == Step::Done(true),
        failed == Step::Done(false),
        keeps(c, Reply::Failed@, before) == before,
{
    let asked = crate::batch::request_paths(c);
    assert forall|i: int, j: int| 0 <= i < j < asked.len() implies components(#[trigger] asked[i])
        != components(#[trigger] asked[j]) by {
        assert(components(c.paths[c.from + i]) != components(c.paths[c.from + j]));
    }
    crate::batch::law_contents_are_given_back(before, asked, contents@);
    let map = keeps(c, Reply::Contents(contents)@, before);
    assert forall|i: int|
        c.from <= i < c.from + 8 && i < c.paths.len() && i - c.from < contents@.len() implies {
        &&& map.dom().contains(components(#[trigger] c.paths[i]))
        &&& map[components(c.paths[i])] == contents@[i - c.from]
    } by {
        assert(asked[i - c.from] == c.paths[i]);
    }
}

/// What reading ahead is about never changes, and nothing is kept but what was read.
pub proof fn law_reading_ahead_keeps_its_files(
    c: Course,
    answer: Answer,
    before: Map<Seq<Component>, Vec<u8>>,
)
    ensures
        after(c, answer).mount == c.mount,
        after(c, answer).paths == c.paths,
        !(c.at is Connecting) ==> after(c, answer).context == c.context,
        !(c.at is Reading && answer is Contents) ==> keeps(c, answer, before) == before,
{
}

/// A reply to what was not asked changes nothing.
pub proof fn law_stray_replies_change_nothing(c: Course, reply: Reply)
    requires
        !(reply is Failed),
        c.at is Connecting ==> !(reply is Connected),
        c.at is Locating ==> !(reply is Canonical),
        c.at is Reading ==> !(reply is Contents),
    ensures
        after(c, reply@) == c,
{
}

} // verus!
