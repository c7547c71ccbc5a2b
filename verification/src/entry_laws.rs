//! What entries and directories come to, told by what was read of them.
use crate::attrs::{
    error_kind, AttrMask, ErrorKind, VfAttrs, VfFault, ATTR_BLOCKS, ATTR_MODE, ATTR_SIZE,
};
use crate::config::{Config, Dereference, Files, Sort, SizeFormat};
use crate::entry::{
    first_ft, first_md, follows, is_bad_descriptor, may_execute, same_attrs, same_meta,
    target_matters, wrap_meta, PathData,
};
use crate::entry_order::{entry_times_fit, SortFact};
use crate::error::errno_of;
use crate::listing::{
    are_dot_entries, block_size_spec, dir_of, displayed_flags, entries_sorted, failed_flags,
    is_listed_entry, is_vf_entry, law_dotdot_leads_up, lemma_set_places, operand_data,
    operand_facts, operand_flags, operand_is, operands_sorted, raw_size, set_places,
    starts_listing, subdirectory_flags, total_size, DotTargets, Operand, Plan, ReadEntry,
    StreamMode,
};
use crate::listing_laws::{
    law_newest_entries_come_first, meta_of, own_name, puts_in_order, shown_name, timestamp_of,
    type_of,
};
use crate::meta::{
    type_of_code, type_of_std, IoFailure, LsDirEntry, LsFileType, LsMeta, StdFileType, StdMetadata,
};
use crate::output::{heading, Op, RECENT_SECONDS};
use crate::path::{components, Component};
use crate::security::{context_text, lossy_text, without_nul};
use crate::sort::{listing_order, rearranged};
use crate::traverse::{places_view, At, Dir, Place};
use vstd::prelude::*;
use vstd::utf8::{encode_utf8, valid_utf8};

verus! {

// ---------------------------------------------------------------------------
// Types and metadata
// ---------------------------------------------------------------------------

/// A type code stands for one type, and each type but the unknown one has one code.
pub proof fn law_type_codes(code: u32)
    ensures
        type_of_code(code) == LsFileType::File <==> code == 1,
        type_of_code(code) == LsFileType::Dir <==> code == 2,
        type_of_code(code) == LsFileType::Symlink <==> code == 5,
        type_of_code(code) == LsFileType::BlockDevice <==> code == 6,
        type_of_code(code) == LsFileType::CharDevice <==> code == 7,
        type_of_code(code) == LsFileType::Fifo <==> code == 8,
        type_of_code(code) == LsFileType::Socket <==> code == 9,
{
}

/// A file is of a type that the local file system says it is of, and of the unknown
/// one only where it is of none.
pub proof fn law_types_are_as_told(t: StdFileType)
    ensures
        type_of_std(t) == LsFileType::Dir <==> t.is_dir,
        type_of_std(t) == LsFileType::File <==> t.is_file && !t.is_dir,
        type_of_std(t) == LsFileType::Symlink ==> t.is_symlink,
        type_of_std(t) == LsFileType::BlockDevice ==> t.is_block_device,
        type_of_std(t) == LsFileType::CharDevice ==> t.is_char_device,
        type_of_std(t) == LsFileType::Fifo ==> t.is_fifo,
        type_of_std(t) == LsFileType::Socket ==> t.is_socket,
        type_of_std(t) == LsFileType::Unknown <==> !(t.is_dir || t.is_file || t.is_symlink
            || t.is_block_device || t.is_char_device || t.is_fifo || t.is_socket),
        t.is_symlink && !t.is_dir && !t.is_file ==> type_of_std(t) == LsFileType::Symlink,
        t.is_block_device && !t.is_dir && !t.is_file && !t.is_symlink ==> type_of_std(t)
            == LsFileType::BlockDevice,
        t.is_char_device && !t.is_dir && !t.is_file && !t.is_symlink && !t.is_block_device
            ==> type_of_std(t) == LsFileType::CharDevice,
        t.is_fifo && !t.is_dir && !t.is_file && !t.is_symlink && !t.is_block_device
            && !t.is_char_device ==> type_of_std(t) == LsFileType::Fifo,
{
}

/// A set of attributes has those whose bits are all in it.
pub proof fn law_attributes_are_bits(m: AttrMask, flags: u32)
    ensures
        m.has(flags) <==> m.bits & flags == flags,
{
}

/// What the backend did not return counts as nothing; what it did return, and what
/// the local file system says, counts as it is.
pub proof fn law_metadata_counts_where_returned(md: LsMeta)
    ensures
        md matches LsMeta::Std(m) ==> {
            &&& md.len_spec() == m.len
            &&& md.blocks_spec() == m.blocks
            &&& md.mode_spec() == m.mode
            &&& md.file_type_spec() == type_of_std(m.file_type)
        },
        md matches LsMeta::Vf(v) ==> {
            &&& v.returned.bits & ATTR_SIZE == ATTR_SIZE ==> md.len_spec() == v.size
            &&& v.returned.bits & ATTR_SIZE != ATTR_SIZE ==> md.len_spec() == 0
            &&& v.returned.bits & ATTR_BLOCKS == ATTR_BLOCKS ==> md.blocks_spec() == v.blocks
            &&& v.returned.bits & ATTR_BLOCKS != ATTR_BLOCKS ==> md.blocks_spec() == 0
            &&& v.returned.bits & ATTR_MODE == ATTR_MODE ==> md.mode_spec() == v.mode
            &&& v.returned.bits & ATTR_MODE != ATTR_MODE ==> md.mode_spec() == 0
            &&& md.file_type_spec() == type_of_code(v.ftype)
        },
{
}

/// A copy of a report says in every field what the report says.
pub proof fn law_copies_say_the_same(a: VfAttrs, b: VfAttrs)
    requires
        same_attrs(a, b),
    ensures
        a.path is Some == b.path is Some,
        a.path is Some ==> (a.path->0)@ == (b.path->0)@,
        a.ftype == b.ftype && a.returned.bits == b.returned.bits,
        a.size == b.size && a.nlink == b.nlink && a.uid == b.uid && a.gid == b.gid,
        a.rdev == b.rdev && a.fileid == b.fileid && a.blocks == b.blocks && a.mode == b.mode,
        a.atime_sec == b.atime_sec && a.atime_nsec == b.atime_nsec,
        a.mtime_sec == b.mtime_sec && a.mtime_nsec == b.mtime_nsec,
        a.ctime_sec == b.ctime_sec && a.ctime_nsec == b.ctime_nsec,
        same_attrs(b, a),
{
}

/// Copied metadata is of the same source and says the same.
pub proof fn law_copied_metadata_says_the_same(a: LsMeta, b: LsMeta)
    requires
        same_meta(a, b),
    ensures
        a matches LsMeta::Std(m) ==> b == LsMeta::Std(m),
        a matches LsMeta::Vf(v) ==> (b matches LsMeta::Vf(w) && same_attrs(v, w)),
        a.len_spec() == b.len_spec() && a.blocks_spec() == b.blocks_spec(),
        a.mode_spec() == b.mode_spec() && a.file_type_spec() == b.file_type_spec(),
        a.mtime_spec() == b.mtime_spec() && a.atime_spec() == b.atime_spec(),
        a.ctime_spec() == b.ctime_spec(),
{
}

/// A file may be executed where its owner, its group or others may.
pub proof fn law_who_may_execute(mode: u32)
    ensures
        may_execute(mode) <==> mode & 0o100 == 0o100 || mode & 0o010 == 0o010 || mode & 0o001
            == 0o001,
{
    assert(mode & 0o111 != 0 <==> mode & 0o100 == 0o100 || mode & 0o010 == 0o010 || mode & 0o001
        == 0o001) by (bit_vector);
}

/// Each status of the backend that has a kind of its own is told as that, and the
/// others as the rest.
pub proof fn law_kinds_of_errors(fault: VfFault)
    ensures
        error_kind(fault) == ErrorKind::ConnectionRefused <==> fault == VfFault::Transport,
        error_kind(fault) == ErrorKind::NotFound <==> fault == (VfFault::Op { err_no: 2 }),
        error_kind(fault) == ErrorKind::PermissionDenied <==> fault == (VfFault::Op { err_no: 13 }),
        error_kind(fault) == ErrorKind::AlreadyExists <==> fault == (VfFault::Op { err_no: 17 }),
        error_kind(fault) == ErrorKind::NotADirectory <==> fault == (VfFault::Op { err_no: 20 }),
        error_kind(fault) == ErrorKind::IsADirectory <==> fault == (VfFault::Op { err_no: 21 }),
        error_kind(fault) == ErrorKind::InvalidInput <==> fault == (VfFault::Op { err_no: 22 }),
{
}

/// A failure has the number that the system gave.
pub proof fn law_failures_have_their_number(failure: IoFailure)
    ensures
        failure.raw_os_error matches Some(n) ==> errno_of(failure) == n,
        failure.raw_os_error is None ==> errno_of(failure) == 1,
        is_bad_descriptor(failure) <==> failure.raw_os_error == Some(9i32),
{
}

// ---------------------------------------------------------------------------
// One entry
// ---------------------------------------------------------------------------

/// What is known of an entry is what was read of it.
pub proof fn law_what_is_known_was_read(e: PathData)
    ensures
        e.known_md() == meta_of(e),
        e.known_ft() == type_of(e),
        e.shown() == shown_name(e),
        e.name() == own_name(e),
{
}

/// Links are followed everywhere, on the command line, there where they lead to a
/// directory, or nowhere, as was asked for; but a path on the command line that ends
/// in no name is always followed.
pub proof fn law_which_links_are_followed(
    command_line: bool,
    path: Seq<u8>,
    target: Option<StdMetadata>,
)
    ensures
        follows(Dereference::All, command_line, path, target),
        !command_line ==> forall|d: Dereference|
            #[trigger] follows(d, command_line, path, target) <==> d == Dereference::All,
        command_line ==> follows(Dereference::Args, command_line, path, target),
        command_line && (components(path).len() == 0 || !(components(path).last() is Normal))
            ==> forall|d: Dereference| #[trigger] follows(d, command_line, path, target),
        components(path).len() > 0 && components(path).last() is Normal ==> {
            &&& !follows(Dereference::Never, command_line, path, target)
            &&& follows(Dereference::DirArgs, command_line, path, target) <==> command_line
                && target is Some && target->0.file_type.is_dir
        },
{
}

/// Following a path is tried before its entry is made where that decides whether it
/// is followed, or where what it leads to is kept.
pub proof fn law_when_a_target_is_looked_at(
    d: Dereference,
    command_line: bool,
    path: Seq<u8>,
    has_entry: bool,
)
    ensures
        command_line && d == Dereference::DirArgs ==> target_matters(
            d,
            command_line,
            path,
            has_entry,
        ),
        !(command_line && d == Dereference::DirArgs) ==> (target_matters(
            d,
            command_line,
            path,
            has_entry,
        ) <==> has_entry && follows(d, command_line, path, None)),
{
}

/// What is kept at once of an entry that was read from a directory: where it is
/// followed and leads somewhere, what it leads to; otherwise the type that the
/// directory told, if it did.
pub proof fn law_what_is_kept_at_once(
    told: Option<StdFileType>,
    deref: bool,
    target: Option<StdMetadata>,
)
    ensures
        first_md(false, deref, target) is None,
        first_ft(false, told, deref, target) is None,
        deref && target is Some ==> {
            &&& first_md(true, deref, target) == Some(Some(LsMeta::Std(target->0)))
            &&& first_ft(true, told, deref, target) == Some(Some(type_of_std(target->0.file_type)))
        },
        !deref || target is None ==> {
            &&& first_md(true, deref, target) is None
            &&& first_ft(true, told, deref, target) is Some <==> told is Some
            &&& told is Some ==> first_ft(true, told, deref, target) == Some(
                Some(type_of_std(told->0)),
            )
        },
        wrap_meta(target) is Some <==> target is Some,
        target is Some ==> wrap_meta(target) == Some(LsMeta::Std(target->0)),
{
}

/// An entry that was read from a directory keeps its path and its name; links are
/// followed for it where they are followed everywhere, and then what it leads to is
/// what is known of it.
pub proof fn law_listed_entries_are_what_was_read(r: PathData, e: ReadEntry, config: Config)
    requires
        is_listed_entry(r, e, config),
    ensures
        !r.command_line && !r.is_dot_dir && r.security_context is None,
        r.must_dereference <==> config.dereference == Dereference::All,
        e.entry matches LsDirEntry::Std(de) ==> {
            &&& r.p_buf@ == de.path@
            &&& shown_name(r) == de.name@
            &&& r.has_dir_entry
            &&& r.must_dereference && e.target is Some ==> r.md == Some(
                Some(LsMeta::Std(e.target->0)),
            ) && type_of(r) == Some(type_of_std(e.target->0.file_type))
            &&& !(r.must_dereference && e.target is Some) ==> r.md is None && type_of(r) == (
            if de.file_type is Some {
                Some(type_of_std(de.file_type->0))
            } else {
                None
            })
        },
        e.entry matches LsDirEntry::Vf { path, name, attrs } ==> {
            &&& r.p_buf@ == path@
            &&& shown_name(r) == name@
            &&& !r.has_dir_entry
            &&& r.must_dereference ==> r.md is None && r.ft is None
            &&& !r.must_dereference ==> type_of(r) == Some(type_of_code(attrs.ftype)) && (
            meta_of(r) matches Some(LsMeta::Vf(v)) && same_attrs(attrs, v))
        },
{
}

/// The entry of a reported file keeps the path, the name and the report.
pub proof fn law_entries_keep_their_report(
    r: PathData,
    path: Seq<u8>,
    shown: Seq<u8>,
    attrs: VfAttrs,
    config: Config,
)
    requires
        is_vf_entry(r, path, shown, attrs, config),
    ensures
        r.p_buf@ == path,
        shown_name(r) == shown,
        !r.command_line && !r.is_dot_dir && !r.has_dir_entry && r.security_context is None,
        r.must_dereference <==> config.dereference == Dereference::All,
        r.must_dereference ==> r.md is None && r.ft is None,
        !r.must_dereference ==> type_of(r) == Some(type_of_code(attrs.ftype)) && (meta_of(
            r,
        ) matches Some(LsMeta::Vf(v)) && same_attrs(attrs, v)),
{
}

/// The entries `.` and `..` are there where all files are listed, and only then;
/// they lead to the directory and one step up from it.
pub proof fn law_dot_entries(
    entries: Seq<PathData>,
    dir: Seq<u8>,
    targets: DotTargets,
    config: Config,
)
    requires
        are_dot_entries(entries, dir, targets, config),
    ensures
        config.files != Files::All ==> entries.len() == 0,
        config.files == Files::All ==> {
            &&& entries.len() == 2
            &&& shown_name(entries[0]) == seq![46u8]
            &&& shown_name(entries[1]) == seq![46u8, 46u8]
            &&& entries[0].p_buf@ == dir
            &&& components(entries[1].p_buf@) == components(dir).push(Component::ParentDir)
            &&& forall|k: int|
                0 <= k < 2 ==> (#[trigger] entries[k]).is_dot_dir && !entries[k].command_line
                    && !entries[k].has_dir_entry && entries[k].md is None && entries[k].ft is None
                    && (entries[k].must_dereference <==> config.dereference == Dereference::All)
        },
{
    law_dotdot_leads_up(dir);
}

// ---------------------------------------------------------------------------
// Which entries
// ---------------------------------------------------------------------------

/// Whether these are the places, in ascending order, of all among `n` for which
/// `wanted` holds.
pub open spec fn are_places(places: Seq<int>, n: int, wanted: spec_fn(int) -> bool) -> bool {
    &&& forall|k: int, l: int|
        0 <= k < l < places.len() ==> #[trigger] places[k] < #[trigger] places[l]
    &&& forall|i: int| #[trigger] places.contains(i) <==> 0 <= i < n && wanted(i)
}

proof fn lemma_are_places(flags: Seq<bool>, wanted: spec_fn(int) -> bool)
    requires
        forall|i: int| 0 <= i < flags.len() ==> #[trigger] flags[i] == wanted(i),
    ensures
        are_places(set_places(flags), flags.len() as int, wanted),
{
    let places = set_places(flags);
    lemma_set_places(flags);
    assert forall|i: int| #[trigger] places.contains(i) <==> 0 <= i < flags.len() && wanted(i) by {
        if places.contains(i) {
            let k = choose|k: int| 0 <= k < places.len() && places[k] == i;
            assert(flags[places[k]]);
        }
        if 0 <= i < flags.len() && wanted(i) {
            assert(flags[i]);
        }
    }
}

/// The places of flags that are set are all of these places, in ascending order.
pub proof fn law_set_places(flags: Seq<bool>)
    ensures
        are_places(set_places(flags), flags.len() as int, |i: int| flags[i]),
{
    lemma_are_places(flags, |i: int| flags[i]);
}

/// What is listed of what was read are the entries that are displayed, and what is
/// reported are the failures; all of them, in the order in which they were read.
pub proof fn law_displayed_entries_are_listed(read: Seq<Result<ReadEntry, IoFailure>>)
    ensures
        are_places(
            set_places(displayed_flags(read)),
            read.len() as int,
            |i: int| read[i] is Ok && (read[i]->Ok_0).displayed,
        ),
        are_places(
            set_places(failed_flags(read)),
            read.len() as int,
            |i: int| read[i] is Err,
        ),
{
    lemma_are_places(
        displayed_flags(read),
        |i: int| read[i] is Ok && (read[i]->Ok_0).displayed,
    );
    lemma_are_places(failed_flags(read), |i: int| read[i] is Err);
}

/// Whether these are the directories among the entries to descend into, in order,
/// `at` being their places: those of known type directory but the two dot entries,
/// whatever their names.
pub open spec fn descends_into(entries: Seq<PathData>, places: Seq<Place>, at: Seq<int>) -> bool {
    &&& are_places(
        at,
        entries.len() as int,
        |i: int| type_of(entries[i]) == Some(LsFileType::Dir) && !entries[i].is_dot_dir,
    )
    &&& at.len() == places.len()
    &&& forall|k: int|
        0 <= k < places.len() ==> (#[trigger] places[k]).path@ == entries[at[k]].p_buf@
            && places[k].must_dereference == entries[at[k]].must_dereference
            && places[k].command_line == entries[at[k]].command_line
}

/// An entry is descended into if and only if its type is directory and it is not one
/// of the two dot entries, whatever its name.
pub proof fn law_subdirectories_are_the_directories(entries: Seq<PathData>, places: Seq<Place>)
    requires
        places_view(places) == set_places(subdirectory_flags(entries)).map_values(
            |i: int| dir_of(entries[i]),
        ),
    ensures
        exists|at: Seq<int>| descends_into(entries, places, at),
{
    let at = set_places(subdirectory_flags(entries));
    lemma_are_places(
        subdirectory_flags(entries),
        |i: int| type_of(entries[i]) == Some(LsFileType::Dir) && !entries[i].is_dot_dir,
    );
    assert(at.len() == places_view(places).len());
    assert forall|k: int| 0 <= k < places.len() implies (#[trigger] places[k]).path@
        == entries[at[k]].p_buf@ && places[k].must_dereference == entries[at[k]].must_dereference
        && places[k].command_line == entries[at[k]].command_line by {
        assert(places_view(places)[k] == dir_of(entries[at[k]]));
    }
    assert(descends_into(entries, places, at));
}

/// The entries of a directory, and the operands of one kind, are put in order by
/// what is known of each.
pub proof fn law_listed_entries_are_put_in_order(
    entries: Seq<PathData>,
    facts: Seq<SortFact>,
    config: Config,
    sorted: Seq<PathData>,
)
    requires
        entries.len() == facts.len(),
        entries_sorted(entries, facts, config, sorted),
    ensures
        exists|order: Seq<usize>| #[trigger] puts_in_order(entries, facts, config, order, sorted),
{
    let order = choose|order: Seq<usize>| #[trigger]
        listing_order(
            crate::entry_order::entry_keys(entries, facts, config),
            crate::entry_order::entry_dirs(entries, facts),
            config,
            order,
        ) && sorted == rearranged(entries, order);
    assert(puts_in_order(entries, facts, config, order, sorted));
}

/// Listed by time, of two entries of a directory the one whose own time of the chosen
/// field is later comes first.
pub proof fn law_directories_are_listed_by_time(
    entries: Seq<PathData>,
    facts: Seq<SortFact>,
    config: Config,
    sorted: Seq<PathData>,
    a: int,
    b: int,
)
    requires
        entries.len() == facts.len(),
        entries_sorted(entries, facts, config, sorted),
        entry_times_fit(entries, config),
        config.sort == Sort::Time,
        !config.reverse,
        !config.group_directories_first,
        0 <= a < sorted.len(),
        0 <= b < sorted.len(),
        meta_of(sorted[a]) is Some,
        meta_of(sorted[b]) is Some,
        timestamp_of(meta_of(sorted[a])->0, config.time) > timestamp_of(
            meta_of(sorted[b])->0,
            config.time,
        ),
    ensures
        a < b,
{
    law_listed_entries_are_put_in_order(entries, facts, config, sorted);
    let order = choose|order: Seq<usize>| #[trigger]
        puts_in_order(entries, facts, config, order, sorted);
    if b < a {
        law_newest_entries_come_first(entries, facts, config, order, sorted, b, a);
    }
}

/// Whether an operand is listed as a directory: it is one, and directories are not
/// asked to be listed themselves.
pub open spec fn opens_up(op: Operand, config: Config) -> bool {
    type_of(op.data) == Some(LsFileType::Dir) && !config.directory
}

/// Whether these are the operands that exist and are listed as directories, or
/// those that exist and are not, in the order in which they were given, with what
/// sorting them takes.
pub open spec fn are_operands(
    ops: Seq<Operand>,
    config: Config,
    as_dir: bool,
    data: Seq<PathData>,
    facts: Seq<SortFact>,
    at: Seq<int>,
) -> bool {
    &&& are_places(
        at,
        ops.len() as int,
        |i: int| meta_of(ops[i].data) is Some && opens_up(ops[i], config) == as_dir,
    )
    &&& data.len() == at.len()
    &&& facts.len() == at.len()
    &&& forall|k: int|
        0 <= k < at.len() ==> #[trigger] data[k] == ops[at[k]].data && facts[k] == ops[at[k]].fact
}

/// Operands that exist are split into directories and the rest, and each of the two
/// is put in order.
pub proof fn law_operands_are_split_and_sorted(
    ops: Seq<Operand>,
    config: Config,
    as_dir: bool,
    sorted: Seq<PathData>,
)
    requires
        operands_sorted(ops, config, as_dir, sorted),
    ensures
        exists|data: Seq<PathData>, facts: Seq<SortFact>, at: Seq<int>, order: Seq<usize>| #[trigger]
            are_operands(ops, config, as_dir, data, facts, at) && #[trigger] puts_in_order(
                data,
                facts,
                config,
                order,
                sorted,
            ),
{
    let data = operand_data(ops, config, as_dir);
    let facts = operand_facts(ops, config, as_dir);
    let flags = operand_flags(ops, config, as_dir);
    let at = set_places(flags);
    let wanted = |i: int| meta_of(ops[i].data) is Some && opens_up(ops[i], config) == as_dir;
    assert forall|i: int| 0 <= i < flags.len() implies #[trigger] flags[i] == wanted(i) by {
        assert(flags[i] == operand_is(ops[i], config, as_dir));
    }
    lemma_are_places(flags, wanted);
    assert(are_operands(ops, config, as_dir, data, facts, at));
    let order = choose|order: Seq<usize>| #[trigger]
        listing_order(
            crate::entry_order::entry_keys(data, facts, config),
            crate::entry_order::entry_dirs(data, facts),
            config,
            order,
        ) && sorted == rearranged(data, order);
    assert(puts_in_order(data, facts, config, order, sorted));
}

/// Whether the directories to open are those of the entries.
pub open spec fn are_dirs_of(dirs: Seq<Dir>, entries: Seq<PathData>) -> bool {
    &&& dirs.len() == entries.len()
    &&& forall|k: int|
        0 <= k < dirs.len() ==> (#[trigger] dirs[k]).path == entries[k].p_buf@
            && dirs[k].must_dereference == entries[k].must_dereference && dirs[k].command_line
            == entries[k].command_line
}

/// Whether the type of an operand that exists could not be told.
pub open spec fn has_untold_type(locs: Seq<Operand>) -> bool {
    exists|i: int|
        0 <= i < locs.len() && meta_of((#[trigger] locs[i]).data) is Some && type_of(locs[i].data)
            is None
}

/// A listing starts at its first directory, with nothing met; it goes below the
/// directories where that was asked for, walks whole trees unless it sorts by time,
/// and heads directories where there is more than one operand or it goes below them.
pub proof fn law_how_a_listing_starts(
    plan: Plan,
    locs: Seq<Operand>,
    config: Config,
    mode: StreamMode,
)
    requires
        starts_listing(plan, locs, config, mode),
    ensures
        plan.mode == mode,
        plan.exit_code == 0 || plan.exit_code == 1,
        plan.exit_code == 1 <==> has_untold_type(locs),
        operands_sorted(locs, config, false, plan.files@),
        plan.listing@.recursive == config.recursive,
        plan.listing@.walks <==> config.recursive && config.sort != Sort::Time,
        plan.listing@.headed <==> locs.len() > 1 || config.recursive,
        plan.listing@.no_files <==> plan.files@.len() == 0,
        plan.listing@.pos == 0 && plan.listing@.stack.len() == 0 && plan.listing@.met.len() == 0,
        plan.listing@.at == At::Beginning,
        exists|dirs: Seq<PathData>| #[trigger]
            operands_sorted(locs, config, true, dirs) && are_dirs_of(plan.listing@.dirs, dirs),
{
    let dirs = choose|dirs: Seq<PathData>| #[trigger]
        operands_sorted(locs, config, true, dirs) && plan.listing@.dirs == dirs.map_values(
            |e: PathData| dir_of(e),
        );
    assert(are_dirs_of(plan.listing@.dirs, dirs));
    if has_untold_type(locs) {
        let i = choose|i: int|
            0 <= i < locs.len() && meta_of((#[trigger] locs[i]).data) is Some && type_of(
                locs[i].data,
            ) is None;
        assert(locs[i].data.known_md() is Some && locs[i].data.known_ft() is None);
    } else {
        assert forall|i: int| 0 <= i < locs.len() implies !((#[trigger] locs[i]).data.known_md()
            is Some && locs[i].data.known_ft() is None) by {
            assert(!(meta_of(locs[i].data) is Some && type_of(locs[i].data) is None));
        }
    }
}

// ---------------------------------------------------------------------------
// Sizes
// ---------------------------------------------------------------------------

/// A file takes up 512 bytes for each of its blocks, a device nothing; in bytes that
/// is told in whole blocks of the size that was asked for, without the rest.
pub proof fn law_what_a_file_takes_up(md: LsMeta, config: Config, kind: LsFileType, blocks: int)
    requires
        config.size_format == SizeFormat::Bytes ==> config.block_size > 0,
        match md {
            LsMeta::Std(m) => kind == type_of_std(m.file_type) && blocks == m.blocks,
            LsMeta::Vf(v) => kind == type_of_code(v.ftype) && blocks == (if v.returned.bits
                & ATTR_BLOCKS == ATTR_BLOCKS {
                v.blocks as int
            } else {
                0
            }),
        },
    ensures
        ({
            let bytes = if kind == LsFileType::CharDevice || kind == LsFileType::BlockDevice {
                0
            } else {
                512 * blocks
            };
            let told = block_size_spec(md, config);
            &&& raw_size(md) == bytes
            &&& config.size_format != SizeFormat::Bytes ==> told == bytes
            &&& config.size_format == SizeFormat::Bytes ==> told * config.block_size <= bytes < (told
                + 1) * config.block_size
        }),
{
    if config.size_format == SizeFormat::Bytes {
        let b = config.block_size as int;
        let bytes = raw_size(md);
        let told = block_size_spec(md, config);
        vstd::arithmetic::div_mod::lemma_fundamental_div_mod(bytes, b);
        vstd::arithmetic::mul::lemma_mul_is_distributive_add_other_way(b, told, 1);
        vstd::arithmetic::mul::lemma_mul_is_commutative(b, told);
    }
}

/// What entries take up together is what each takes up, added; an entry of which
/// nothing is known adds nothing.
pub proof fn law_sizes_add_up(entries: Seq<PathData>, e: PathData, config: Config)
    ensures
        total_size(Seq::empty(), config) == 0,
        meta_of(e) matches Some(md) ==> total_size(entries.push(e), config) == total_size(
            entries,
            config,
        ) + block_size_spec(md, config),
        meta_of(e) is None ==> total_size(entries.push(e), config) == total_size(entries, config),
{
    assert(entries.push(e).drop_last() =~= entries);
}

// ---------------------------------------------------------------------------
// Text
// ---------------------------------------------------------------------------

/// Every heading ends a line behind the name of the directory, and names it once. A
/// blank line stands before it unless it comes first; where positions are noted, the
/// name stands behind two blanks and is noted by its length.
pub proof fn law_headings(len: usize, dired: bool, is_first: bool)
    ensures
        ({
            let h = heading(len, dired, is_first);
            let blank: Seq<Op> = if is_first {
                Seq::empty()
            } else {
                seq![Op::Newline]
            };
            let noted = seq![Op::NoteSubdirectory(len), Op::CountDirName(len)];
            let named = seq![Op::DirName, Op::Newline];
            &&& !dired ==> h == blank + named
            &&& dired && is_first ==> h == seq![Op::Indent] + named + noted
            &&& dired && !is_first ==> h == blank + seq![Op::CountBlankLine, Op::Indent] + noted
                + named
        }),
{
    let h = heading(len, dired, is_first);
    let noted = seq![Op::NoteSubdirectory(len), Op::CountDirName(len)];
    let named = seq![Op::DirName, Op::Newline];
    let blank: Seq<Op> = if is_first {
        Seq::empty()
    } else {
        seq![Op::Newline]
    };
    if !dired {
        assert(h =~= blank + named);
    } else if is_first {
        assert(h =~= seq![Op::Indent] + named + noted);
    } else {
        assert(h =~= blank + seq![Op::CountBlankLine, Op::Indent] + noted + named);
    }
}

/// A time counts as recent for half of an average year of the Gregorian calendar,
/// which repeats after 400 years of 146097 days.
pub proof fn law_recent_is_half_a_year()
    ensures
        RECENT_SECONDS * 2 * 400 == 146_097 * 24 * 60 * 60,
{
}

/// One NUL at the end of a security context does not count, and nothing else is left
/// out; the text of a context encodes its bytes, where these are text.
pub proof fn law_context_is_the_text_of_its_bytes(bytes: Seq<u8>)
    ensures
        without_nul(bytes.push(0)) == bytes,
        bytes.len() > 0 && bytes.last() != 0 ==> without_nul(bytes) == bytes,
        bytes.len() == 0 ==> without_nul(bytes) == bytes,
        valid_utf8(bytes) ==> encode_utf8(context_text(bytes.push(0))) == bytes,
        valid_utf8(bytes) && bytes.len() > 0 && bytes.last() != 0 ==> encode_utf8(
            context_text(bytes),
        ) == bytes,
        !valid_utf8(bytes) ==> context_text(bytes.push(0)) == lossy_text(bytes),
        !valid_utf8(bytes) && bytes.len() > 0 && bytes.last() != 0 ==> context_text(bytes)
            == lossy_text(bytes),
{
    assert(bytes.push(0).drop_last() =~= bytes);
    if valid_utf8(bytes) {
        vstd::utf8::decode_utf8_encode_utf8(bytes);
    }
}

} // verus!
