//! What is listed: the operands, the entries of a directory, their total size.
use crate::attrs::VfAttrs;
use crate::config::{Config, Dereference, Files, Format, SizeFormat, Sort};
use crate::entry::{first_ft, first_md, follows, wrap_meta, PathData, PathDataDisplayName};
use crate::entry_order::{
    entry_dirs, entry_keys, entry_times_fit, listed_as, ls_time_fits, sort_entries, vf_name,
    SortFact,
};
use crate::error::LsError;
use crate::meta::{
    type_of_code, IoFailure, LsDirEntry, LsFileType, LsMeta, StdFileType, StdMetadata,
};
use crate::path::{
    components, copy_bytes, is_absolute_spec, join, join_spec, lemma_dotdot, lemma_join_components,
    lemma_spans, Component, DOT,
};
use crate::sort::{
    law_listing_is_permutation, law_rearranged_holds_the_same, listing_order, rearranged, reversed,
};
use crate::traverse::{places_view, sane, At, Course, Dir, Listing, Place};
use vstd::prelude::*;

verus! {

/// The places of the flags that are set, in ascending order.
pub open spec fn set_places(flags: Seq<bool>) -> Seq<int>
    decreases flags.len(),
{
    if flags.len() == 0 {
        Seq::empty()
    } else if flags.last() {
        set_places(flags.drop_last()).push(flags.len() - 1)
    } else {
        set_places(flags.drop_last())
    }
}

pub proof fn lemma_set_places(flags: Seq<bool>)
    ensures
        forall|k: int|
            0 <= k < set_places(flags).len() ==> 0 <= #[trigger] set_places(flags)[k] < flags.len()
                && flags[set_places(flags)[k]],
        forall|k: int, l: int|
            0 <= k < l < set_places(flags).len() ==> #[trigger] set_places(flags)[k]
                < #[trigger] set_places(flags)[l],
        forall|i: int| 0 <= i < flags.len() && #[trigger] flags[i] ==> set_places(flags).contains(i),
    decreases flags.len(),
{
    if flags.len() > 0 {
        let front = flags.drop_last();
        lemma_set_places(front);
        let rest = set_places(front);
        let all = set_places(flags);
        assert forall|k: int| 0 <= k < all.len() implies 0 <= #[trigger] all[k] < flags.len()
            && flags[all[k]] by {
            if k < rest.len() {
                assert(all[k] == rest[k]);
                assert(front[rest[k]]);
            }
        }
        assert forall|k: int, l: int| 0 <= k < l < all.len() implies #[trigger] all[k]
            < #[trigger] all[l] by {
            assert(all[k] == rest[k]);
            if l < rest.len() {
                assert(all[l] == rest[l]);
            }
        }
        assert forall|i: int| 0 <= i < flags.len() && #[trigger] flags[i] implies all.contains(
            i,
        ) by {
            if i < front.len() {
                assert(front[i]);
                let k = choose|k: int| 0 <= k < rest.len() && rest[k] == i;
                assert(all[k] == i);
            } else {
                assert(all[all.len() - 1] == i);
            }
        }
    }
}

// ---------------------------------------------------------------------------
// Operands
// ---------------------------------------------------------------------------

/// The paths to list: those given, or else the current directory.
pub fn operands(paths: Option<Vec<Vec<u8>>>) -> (r: Vec<Vec<u8>>)
    ensures
        match paths {
            Some(given) => r == given,
            None => r@.len() == 1 && r@[0]@ == seq![DOT],
        },
{
    match paths {
        Some(given) => given,
        None => {
            let mut here: Vec<u8> = Vec::new();
            here.push(DOT);
            assert(here@ =~= seq![DOT]);
            let mut all: Vec<Vec<u8>> = Vec::new();
            all.push(here);
            all
        },
    }
}

/// A path to list, whose metadata was asked for, with what sorting it takes.
pub struct Operand {
    pub data: PathData,
    pub fact: SortFact,
}

/// How entries are handed to the output.
#[derive(Clone, Copy, Debug, PartialEq, Eq, Structural)]
pub enum StreamMode {
    /// One by one.
    Streaming,
    /// All of a directory at once.
    Batched,
}

/// Whether an operand exists and is listed as a directory (`as_dir`) or as a file.
pub open spec fn operand_is(op: Operand, config: Config, as_dir: bool) -> bool {
    &&& op.data.known_md() is Some
    &&& (op.data.known_ft() == Some(LsFileType::Dir) && !config.directory) == as_dir
}

pub open spec fn operand_flags(ops: Seq<Operand>, config: Config, as_dir: bool) -> Seq<bool> {
    Seq::new(ops.len(), |i: int| operand_is(ops[i], config, as_dir))
}

pub open spec fn operand_data(ops: Seq<Operand>, config: Config, as_dir: bool) -> Seq<PathData> {
    set_places(operand_flags(ops, config, as_dir)).map_values(|i: int| ops[i].data)
}

pub open spec fn operand_facts(ops: Seq<Operand>, config: Config, as_dir: bool) -> Seq<SortFact> {
    set_places(operand_flags(ops, config, as_dir)).map_values(|i: int| ops[i].fact)
}

/// Whether `sorted` are the operands of one kind in the order in which they are listed.
pub open spec fn operands_sorted(
    ops: Seq<Operand>,
    config: Config,
    as_dir: bool,
    sorted: Seq<PathData>,
) -> bool {
    let data = operand_data(ops, config, as_dir);
    let facts = operand_facts(ops, config, as_dir);
    exists|order: Seq<usize>| #[trigger]
        listing_order(entry_keys(data, facts, config), entry_dirs(data, facts), config, order)
            && sorted == rearranged(data, order)
}

pub open spec fn dir_of(e: PathData) -> Dir {
    Dir { path: e.p_buf@, must_dereference: e.must_dereference, command_line: e.command_line }
}

/// What a listing starts from.
pub struct Plan {
    /// The operands that are no directories, in order.
    pub files: Vec<PathData>,
    pub mode: StreamMode,
    /// 1 where the type of an operand could not be told, and otherwise 0.
    pub exit_code: i32,
    /// The directories and the way through them.
    pub listing: Listing,
}

/// Whether a plan is the one for these operands: those that are no directories
/// to be listed, sorted, and the way through the directories, sorted too.
pub open spec fn starts_listing(
    plan: Plan,
    locs: Seq<Operand>,
    config: Config,
    mode: StreamMode,
) -> bool {
    &&& operands_sorted(locs, config, false, plan.files@)
    &&& plan.mode == mode
    &&& plan.exit_code == (if exists|i: int|
        0 <= i < locs.len() && (#[trigger] locs[i]).data.known_md() is Some
            && locs[i].data.known_ft() is None {
        1i32
    } else {
        0i32
    })
    &&& exists|dirs: Seq<PathData>| #[trigger]
        operands_sorted(locs, config, true, dirs) && plan.listing@ == (Course {
            recursive: config.recursive,
            walks: config.recursive && config.sort != Sort::Time,
            headed: locs.len() > 1 || config.recursive,
            no_files: plan.files@.len() == 0,
            dirs: dirs.map_values(|e: PathData| dir_of(e)),
            pos: 0,
            stack: Seq::empty(),
            met: Seq::empty(),
            at: At::Beginning,
        })
}

/// Whether the times that operands are sorted by can be held.
pub open spec fn operand_times_fit(locs: Seq<Operand>, config: Config) -> bool {
    config.sort == Sort::Time ==> forall|i: int|
        0 <= i < locs.len() ==> ((#[trigger] locs[i]).data.known_md() matches Some(md)
            ==> ls_time_fits(md, config.time))
}

/// Starts a listing. Operands without metadata are left out; the others are
/// sorted, files and directories apart.
pub fn list_with_output(locs: Vec<Operand>, config: &Config, mode: StreamMode) -> (r: Plan)
    requires
        operand_times_fit(locs@, *config),
    ensures
        starts_listing(r, locs@, *config, mode),
        sane(r.listing@),
{
    let ghost all = locs@;
    let many = locs.len() > 1;
    let mut files: Vec<PathData> = Vec::new();
    let mut file_facts: Vec<SortFact> = Vec::new();
    let mut dirs: Vec<PathData> = Vec::new();
    let mut dir_facts: Vec<SortFact> = Vec::new();
    let mut exit_code: i32 = 0;
    let ghost ff = operand_flags(all, *config, false);
    let ghost df = operand_flags(all, *config, true);
    let ghost mut done: int = 0;
    let n: usize = locs.len();
    let mut rest = reversed(locs);
    assert(ff.take(0) =~= Seq::empty());
    assert(df.take(0) =~= Seq::empty());
    while rest.len() > 0
        invariant
            n == all.len(),
            rest@.len() <= n,
            done == n - rest@.len(),
            forall|k: int| 0 <= k < rest@.len() ==> #[trigger] rest@[k] == all[n - 1 - k],
            ff == operand_flags(all, *config, false),
            df == operand_flags(all, *config, true),
            files@ =~= set_places(ff.take(done)).map_values(|i: int| all[i].data),
            file_facts@ =~= set_places(ff.take(done)).map_values(|i: int| all[i].fact),
            dirs@ =~= set_places(df.take(done)).map_values(|i: int| all[i].data),
            dir_facts@ =~= set_places(df.take(done)).map_values(|i: int| all[i].fact),
            exit_code == 0 || exit_code == 1,
            exit_code == 1 <==> exists|i: int|
                0 <= i < done && (#[trigger] all[i]).data.known_md() is Some
                    && all[i].data.known_ft() is None,
        decreases rest@.len(),
    {
        assert(rest@[rest@.len() - 1] == all[done]);
        assert(ff.take(done + 1).drop_last() =~= ff.take(done));
        assert(df.take(done + 1).drop_last() =~= df.take(done));
        assert(ff.take(done + 1).last() == operand_is(all[done], *config, false));
        assert(df.take(done + 1).last() == operand_is(all[done], *config, true));
        if let Some(op) = rest.pop() {
            if op.data.metadata().is_some() {
                let show_dir_contents = match op.data.file_type() {
                    Some(ft) => !config.directory && ft.is_dir(),
                    None => {
                        exit_code = 1;
                        false
                    },
                };
                if show_dir_contents {
                    dirs.push(op.data);
                    dir_facts.push(op.fact);
                } else {
                    files.push(op.data);
                    file_facts.push(op.fact);
                }
            }
        }
        proof {
            done = done + 1;
        }
    }
    proof {
        assert(ff.take(n as int) =~= ff);
        assert(df.take(n as int) =~= df);
        assert(files@ =~= operand_data(all, *config, false));
        assert(file_facts@ =~= operand_facts(all, *config, false));
        assert(dirs@ =~= operand_data(all, *config, true));
        assert(dir_facts@ =~= operand_facts(all, *config, true));
        lemma_set_places(ff);
        lemma_set_places(df);
        assert forall|k: int| 0 <= k < files@.len() && config.sort == Sort::Time implies ((
        #[trigger] files@[k]).known_md() matches Some(md) ==> ls_time_fits(md, config.time)) by {
            assert(files@[k] == all[set_places(ff)[k]].data);
        }
        assert forall|k: int| 0 <= k < dirs@.len() && config.sort == Sort::Time implies ((
        #[trigger] dirs@[k]).known_md() matches Some(md) ==> ls_time_fits(md, config.time)) by {
            assert(dirs@[k] == all[set_places(df)[k]].data);
        }
    }
    sort_entries(&mut files, &file_facts, config);
    sort_entries(&mut dirs, &dir_facts, config);
    assert(operands_sorted(all, *config, true, dirs@));
    let places = places_of(&dirs);
    let listing = Listing::start(places, many, files.len() == 0, config);
    assert(listing@.dirs =~= dirs@.map_values(|e: PathData| dir_of(e)));
    Plan { files, mode, exit_code, listing }
}

fn place_of(e: &PathData) -> (r: Place)
    ensures
        r@ == dir_of(*e),
{
    Place {
        path: copy_bytes(e.path()),
        must_dereference: e.must_dereference,
        command_line: e.command_line,
    }
}

fn places_of(dirs: &Vec<PathData>) -> (r: Vec<Place>)
    ensures
        places_view(r@) == dirs@.map_values(|e: PathData| dir_of(e)),
{
    let mut places: Vec<Place> = Vec::new();
    let n: usize = dirs.len();
    let mut i: usize = 0;
    while i < n
        invariant
            n == dirs@.len(),
            i <= n,
            places@.len() == i,
            forall|k: int| 0 <= k < i ==> (#[trigger] places@[k])@ == dir_of(dirs@[k]),
        decreases n - i,
    {
        places.push(place_of(&dirs[i]));
        i = i + 1;
    }
    assert(places_view(places@) =~= dirs@.map_values(|e: PathData| dir_of(e)));
    places
}

// ---------------------------------------------------------------------------
// The entries of a directory
// ---------------------------------------------------------------------------

/// The path of the entry `..` of a directory.
pub fn dotdot_path(parent: &[u8]) -> (r: Vec<u8>)
    ensures
        r@ == join_spec(parent@, seq![DOT, DOT]),
{
    let mut up: Vec<u8> = Vec::new();
    up.push(DOT);
    up.push(DOT);
    assert(up@ =~= seq![DOT, DOT]);
    join(parent, up.as_slice())
}

/// The path of the entry `..` leads one step up from the directory.
pub proof fn law_dotdot_leads_up(parent: Seq<u8>)
    ensures
        components(join_spec(parent, seq![DOT, DOT])) == components(parent).push(
            Component::ParentDir,
        ),
{
    let up = seq![DOT, DOT];
    assert(!is_absolute_spec(up));
    lemma_dotdot();
    if parent.len() > 0 {
        lemma_join_components(parent, up);
    } else {
        lemma_spans(parent);
        assert(join_spec(parent, up) =~= up);
    }
    assert(components(join_spec(parent, up)) =~= components(parent).push(Component::ParentDir));
}

/// Whether `r` is the entry of a path that is shown by the name `shown`.
/// `entry` tells whether a directory entry was read, and the type that it told.
pub open spec fn is_new_entry(
    r: PathData,
    path: Seq<u8>,
    shown: Seq<u8>,
    entry: Option<Option<StdFileType>>,
    config: Config,
    is_dot_dir: bool,
    target: Option<StdMetadata>,
) -> bool {
    &&& r.p_buf@ == path
    &&& r.display_name matches PathDataDisplayName::Custom(n) && n@ == shown
    &&& r.must_dereference == follows(config.dereference, false, path, target)
    &&& r.has_dir_entry == (entry is Some)
    &&& r.security_context is None
    &&& !r.command_line
    &&& r.is_dot_dir == is_dot_dir
    &&& r.md == first_md(entry is Some, r.must_dereference, target)
    &&& r.ft == first_ft(
        entry is Some,
        match entry {
            Some(t) => t,
            None => None,
        },
        r.must_dereference,
        target,
    )
}

/// Whether `r` is the entry of a file that the backend reported.
pub open spec fn is_vf_entry(
    r: PathData,
    path: Seq<u8>,
    shown: Seq<u8>,
    attrs: VfAttrs,
    config: Config,
) -> bool {
    let follow = config.dereference == Dereference::All;
    &&& r.p_buf@ == path
    &&& r.display_name matches PathDataDisplayName::Custom(n) && n@ == shown
    &&& r.must_dereference == follow
    &&& !r.has_dir_entry
    &&& r.security_context is None
    &&& !r.command_line
    &&& !r.is_dot_dir
    &&& follow ==> r.md is None && r.ft is None
    &&& !follow ==> r.ft == Some(Some(type_of_code(attrs.ftype)))
    &&& !follow ==> (r.md matches Some(Some(LsMeta::Vf(v))) && crate::entry::same_attrs(attrs, v))
}

/// The entry that is made of a report in a directory, once its metadata was read,
/// is the one that is sorted as the report is.
pub proof fn law_entries_stand_for_their_reports(
    a: VfAttrs,
    e: PathData,
    read: PathData,
    fact: SortFact,
    dir: Seq<u8>,
    config: Config,
)
    requires
        is_vf_entry(e, join_spec(dir, vf_name(a)), vf_name(a), a, config),
        read == (PathData {
            md: match e.md {
                Some(md) => Some(md),
                None => Some(wrap_meta(fact.followed)),
            },
            ..e
        }),
    ensures
        listed_as(a, read, fact, dir, config),
{
}

/// What following the entries `.` and `..` of a directory finds.
#[derive(Clone, Copy, Debug, PartialEq, Eq, Structural)]
pub struct DotTargets {
    pub here: Option<StdMetadata>,
    pub up: Option<StdMetadata>,
}

/// Whether `entries` are the entries `.` and `..` of a directory, where these
/// are listed.
pub open spec fn are_dot_entries(
    entries: Seq<PathData>,
    dir: Seq<u8>,
    targets: DotTargets,
    config: Config,
) -> bool {
    if config.files == Files::All {
        &&& entries.len() == 2
        &&& is_new_entry(entries[0], dir, seq![DOT], None, config, true, targets.here)
        &&& is_new_entry(
            entries[1],
            join_spec(dir, seq![DOT, DOT]),
            seq![DOT, DOT],
            None,
            config,
            true,
            targets.up,
        )
    } else {
        entries.len() == 0
    }
}

/// The entries `.` and `..` of a directory, where these are listed.
pub fn dot_entries(dir: &[u8], targets: DotTargets, config: &Config) -> (r: Vec<PathData>)
    ensures
        are_dot_entries(r@, dir@, targets, *config),
{
    let mut entries: Vec<PathData> = Vec::new();
    let all = match config.files {
        Files::All => true,
        _ => false,
    };
    if all {
        let mut here: Vec<u8> = Vec::new();
        here.push(DOT);
        assert(here@ =~= seq![DOT]);
        let mut up: Vec<u8> = Vec::new();
        up.push(DOT);
        up.push(DOT);
        assert(up@ =~= seq![DOT, DOT]);
        entries.push(
            PathData::new(copy_bytes(dir), None, Some(here), config, false, true, targets.here),
        );
        entries.push(
            PathData::new(dotdot_path(dir), None, Some(up), config, false, true, targets.up),
        );
    }
    entries
}

/// An entry that was read from a directory, with what listing it takes.
pub struct ReadEntry {
    pub entry: LsDirEntry,
    /// Whether entries of this name are displayed.
    pub displayed: bool,
    /// What following the path finds.
    pub target: Option<StdMetadata>,
}

pub open spec fn displayed_flags(read: Seq<Result<ReadEntry, IoFailure>>) -> Seq<bool> {
    Seq::new(read.len(), |i: int| read[i] matches Ok(e) && e.displayed)
}

pub open spec fn failed_flags(read: Seq<Result<ReadEntry, IoFailure>>) -> Seq<bool> {
    Seq::new(read.len(), |i: int| read[i] is Err)
}

/// Whether `r` is the entry that is listed for what was read.
pub open spec fn is_listed_entry(r: PathData, e: ReadEntry, config: Config) -> bool {
    match e.entry {
        LsDirEntry::Std(de) => is_new_entry(
            r,
            de.path@,
            de.name@,
            Some(de.file_type),
            config,
            false,
            e.target,
        ),
        LsDirEntry::Vf { path, name, attrs } => is_vf_entry(r, path@, name@, attrs, config),
    }
}

fn listed_entry(e: ReadEntry, config: &Config) -> (r: PathData)
    ensures
        is_listed_entry(r, e, *config),
{
    match e.entry {
        LsDirEntry::Std(de) => {
            let path = copy_bytes(de.path.as_slice());
            PathData::new(path, Some(de), None, config, false, false, e.target)
        },
        LsDirEntry::Vf { path, name, attrs } => PathData::from_vf(path, name, attrs, config),
    }
}

/// The entries of a directory, yet to be sorted, and the failures to report: `.`
/// and `..` where they are listed, then the displayed ones among those read.
pub fn collect_directory_entries(
    dir: &[u8],
    targets: DotTargets,
    read: Vec<Result<ReadEntry, IoFailure>>,
    config: &Config,
) -> (r: (Vec<PathData>, Vec<LsError>))
    ensures
        ({
            let shown = set_places(displayed_flags(read@));
            let dots = if config.files == Files::All {
                2int
            } else {
                0int
            };
            &&& r.0@.len() == dots + shown.len()
            &&& are_dot_entries(r.0@.take(dots), dir@, targets, *config)
            &&& forall|k: int|
                0 <= k < shown.len() ==> is_listed_entry(
                    r.0@[dots + k],
                    read@[#[trigger] shown[k]]->Ok_0,
                    *config,
                )
        }),
        ({
            let failed = set_places(failed_flags(read@));
            &&& r.1@.len() == failed.len()
            &&& forall|k: int|
                0 <= k < failed.len() ==> r.1@[k] == LsError::IOError(
                    read@[#[trigger] failed[k]]->Err_0,
                )
        }),
{
    let ghost all = read@;
    let ghost sf = displayed_flags(all);
    let ghost ef = failed_flags(all);
    let mut entries = dot_entries(dir, targets, config);
    let ghost dots: int = entries@.len() as int;
    let ghost first = entries@;
    let mut failures: Vec<LsError> = Vec::new();
    let n: usize = read.len();
    let mut rest = reversed(read);
    let ghost mut done: int = 0;
    assert(sf.take(0) =~= Seq::empty());
    assert(ef.take(0) =~= Seq::empty());
    while rest.len() > 0
        invariant
            n == all.len(),
            rest@.len() <= n,
            done == n - rest@.len(),
            forall|k: int| 0 <= k < rest@.len() ==> #[trigger] rest@[k] == all[n - 1 - k],
            sf == displayed_flags(all),
            ef == failed_flags(all),
            entries@.len() == dots + set_places(sf.take(done)).len(),
            dots == first.len(),
            entries@.take(dots) == first,
            forall|k: int|
                0 <= k < set_places(sf.take(done)).len() ==> is_listed_entry(
                    entries@[dots + k],
                    all[#[trigger] set_places(sf.take(done))[k]]->Ok_0,
                    *config,
                ),
            failures@.len() == set_places(ef.take(done)).len(),
            forall|k: int|
                0 <= k < set_places(ef.take(done)).len() ==> failures@[k] == LsError::IOError(
                    all[#[trigger] set_places(ef.take(done))[k]]->Err_0,
                ),
        decreases rest@.len(),
    {
        let ghost sofar = entries@;
        let ghost told = failures@;
        let ghost shown = set_places(sf.take(done));
        let ghost failed = set_places(ef.take(done));
        assert(rest@[rest@.len() - 1] == all[done]);
        assert(sf.take(done + 1).drop_last() =~= sf.take(done));
        assert(ef.take(done + 1).drop_last() =~= ef.take(done));
        if let Some(raw) = rest.pop() {
            match raw {
                Err(f) => {
                    failures.push(LsError::IOError(f));
                },
                Ok(e) => {
                    if e.displayed {
                        let entry = listed_entry(e, config);
                        entries.push(entry);
                    }
                },
            }
        }
        proof {
            let shown2 = set_places(sf.take(done + 1));
            let failed2 = set_places(ef.take(done + 1));
            assert(entries@.take(dots) =~= first);
            assert forall|k: int| 0 <= k < shown2.len() implies is_listed_entry(
                entries@[dots + k],
                all[#[trigger] shown2[k]]->Ok_0,
                *config,
            ) by {
                if k < shown.len() {
                    assert(shown2[k] == shown[k]);
                    assert(entries@[dots + k] == sofar[dots + k]);
                }
            }
            assert forall|k: int| 0 <= k < failed2.len() implies failures@[k] == LsError::IOError(
                all[#[trigger] failed2[k]]->Err_0,
            ) by {
                if k < failed.len() {
                    assert(failed2[k] == failed[k]);
                    assert(failures@[k] == told[k]);
                }
            }
            done = done + 1;
        }
    }
    assert(sf.take(n as int) =~= sf);
    assert(ef.take(n as int) =~= ef);
    (entries, failures)
}

pub open spec fn subdirectory_flags(entries: Seq<PathData>) -> Seq<bool> {
    Seq::new(
        entries.len(),
        |i: int| entries[i].known_ft() == Some(LsFileType::Dir) && !entries[i].is_dot_dir,
    )
}

/// The directories among the entries, `.` and `..` left out.
pub fn subdirectories(entries: &Vec<PathData>) -> (r: Vec<Place>)
    ensures
        places_view(r@) == set_places(subdirectory_flags(entries@)).map_values(
            |i: int| dir_of(entries@[i]),
        ),
{
    let ghost flags = subdirectory_flags(entries@);
    let mut out: Vec<Place> = Vec::new();
    let n: usize = entries.len();
    let mut i: usize = 0;
    assert(flags.take(0) =~= Seq::empty());
    while i < n
        invariant
            n == entries@.len(),
            i <= n,
            flags == subdirectory_flags(entries@),
            places_view(out@) =~= set_places(flags.take(i as int)).map_values(
                |i: int| dir_of(entries@[i]),
            ),
        decreases n - i,
    {
        let ghost sofar = out@;
        assert(flags.take(i + 1).drop_last() =~= flags.take(i as int));
        let e = &entries[i];
        let is_dir = match e.file_type() {
            Some(t) => t.is_dir(),
            None => false,
        };
        if is_dir && !e.is_dot_dir {
            out.push(place_of(e));
            assert(places_view(out@) =~= places_view(sofar).push(dir_of(*e)));
        }
        i = i + 1;
    }
    assert(flags.take(n as int) =~= flags);
    out
}

/// Whether `sorted` are the entries of a directory in the order in which they
/// are listed.
pub open spec fn entries_sorted(
    entries: Seq<PathData>,
    facts: Seq<SortFact>,
    config: Config,
    sorted: Seq<PathData>,
) -> bool {
    exists|order: Seq<usize>| #[trigger]
        listing_order(
            entry_keys(entries, facts, config),
            entry_dirs(entries, facts),
            config,
            order,
        ) && sorted == rearranged(entries, order)
}

/// The collected entries of a directory in the order in which they are listed,
/// and the directories among them, in that order too.
pub fn enter_directory(entries: Vec<PathData>, facts: &Vec<SortFact>, config: &Config) -> (r: (
    Vec<PathData>,
    Vec<Place>,
))
    requires
        entries@.len() == facts@.len(),
        entry_times_fit(entries@, *config),
    ensures
        entries_sorted(entries@, facts@, *config, r.0@),
        places_view(r.1@) == set_places(subdirectory_flags(r.0@)).map_values(
            |i: int| dir_of(r.0@[i]),
        ),
{
    let mut sorted = entries;
    sort_entries(&mut sorted, facts, config);
    let places = subdirectories(&sorted);
    (sorted, places)
}

/// Every entry that was collected is listed once, and nothing else is.
pub proof fn law_collected_entries_are_listed_once(
    entries: Seq<PathData>,
    facts: Seq<SortFact>,
    config: Config,
    sorted: Seq<PathData>,
)
    requires
        entries.len() == facts.len() <= usize::MAX,
        entries_sorted(entries, facts, config, sorted),
    ensures
        sorted.to_multiset() == entries.to_multiset(),
{
    let keys = entry_keys(entries, facts, config);
    let dirs = entry_dirs(entries, facts);
    let order = choose|order: Seq<usize>| #[trigger]
        listing_order(keys, dirs, config, order) && sorted == rearranged(entries, order);
    law_listing_is_permutation(keys, dirs, config, order);
    law_rearranged_holds_the_same(entries, order);
}

// ---------------------------------------------------------------------------
// Sizes
// ---------------------------------------------------------------------------

/// The bytes that a file takes up; a device takes up none.
pub open spec fn raw_size(md: LsMeta) -> int {
    if md.file_type_spec() == LsFileType::CharDevice || md.file_type_spec()
        == LsFileType::BlockDevice {
        0
    } else {
        md.blocks_spec() * 512
    }
}

/// The size that a file takes up, in the unit of the listing.
pub open spec fn block_size_spec(md: LsMeta, config: Config) -> int {
    match config.size_format {
        SizeFormat::Bytes => raw_size(md) / config.block_size as int,
        _ => raw_size(md),
    }
}

/// The size that a file takes up, in the unit of the listing.
pub fn get_block_size(md: &LsMeta, config: &Config) -> (r: u64)
    requires
        raw_size(*md) <= u64::MAX,
        config.size_format == SizeFormat::Bytes ==> config.block_size > 0,
    ensures
        r == block_size_spec(*md, *config),
{
    let ft = md.file_type();
    let raw_blocks: u64 = if ft.is_char_device() || ft.is_block_device() {
        0
    } else {
        md.blocks() * 512
    };
    match config.size_format {
        SizeFormat::Binary | SizeFormat::Decimal => raw_blocks,
        SizeFormat::Bytes => raw_blocks / config.block_size,
    }
}

/// What the entries take up together.
pub open spec fn total_size(entries: Seq<PathData>, config: Config) -> int
    decreases entries.len(),
{
    if entries.len() == 0 {
        0
    } else {
        total_size(entries.drop_last(), config) + (match entries.last().known_md() {
            Some(md) => block_size_spec(md, config),
            None => 0,
        })
    }
}

/// Whether the sizes of the entries and their sum can be held.
pub open spec fn sizes_fit(entries: Seq<PathData>, config: Config) -> bool {
    &&& config.size_format == SizeFormat::Bytes ==> config.block_size > 0
    &&& forall|i: int|
        0 <= i < entries.len() ==> ((#[trigger] entries[i]).known_md() matches Some(md) ==> raw_size(
            md,
        ) <= u64::MAX)
    &&& total_size(entries, config) <= u64::MAX
}

proof fn lemma_total_size_grows(entries: Seq<PathData>, config: Config, k: int)
    requires
        0 <= k <= entries.len(),
        config.size_format == SizeFormat::Bytes ==> config.block_size > 0,
    ensures
        0 <= total_size(entries.take(k), config) <= total_size(entries, config),
    decreases entries.len(),
{
    if k < entries.len() {
        lemma_total_size_grows(entries.drop_last(), config, k);
        assert(entries.drop_last().take(k) =~= entries.take(k));
        lemma_size_not_negative(entries.last(), config);
    } else {
        assert(entries.take(k) =~= entries);
        if k > 0 {
            lemma_total_size_grows(entries.drop_last(), config, k - 1);
            assert(entries.drop_last().take(k - 1) =~= entries.drop_last());
            lemma_size_not_negative(entries.last(), config);
        }
    }
}

proof fn lemma_size_not_negative(e: PathData, config: Config)
    requires
        config.size_format == SizeFormat::Bytes ==> config.block_size > 0,
    ensures
        e.known_md() matches Some(md) ==> block_size_spec(md, config) >= 0,
{
    if let Some(md) = e.known_md() {
        if config.size_format == SizeFormat::Bytes {
            vstd::arithmetic::div_mod::lemma_div_pos_is_pos(raw_size(md), config.block_size as int);
        }
    }
}

/// How the entries of a directory are written.
#[derive(Clone, Copy, Debug, PartialEq, Eq, Structural)]
pub struct DirectoryOutput {
    /// The total that is written first, where there is one.
    pub total: Option<u64>,
    /// Whether entries are written one by one.
    pub one_by_one: bool,
}

/// How the entries of a directory are written. The total is written in the
/// long format and where sizes are shown.
pub fn write_directory_entries(entries: &Vec<PathData>, config: &Config, mode: StreamMode) -> (r:
    DirectoryOutput)
    requires
        config.format == Format::Long || config.alloc_size ==> sizes_fit(entries@, *config),
    ensures
        match r.total {
            Some(total) => (config.format == Format::Long || config.alloc_size) && total
                == total_size(entries@, *config),
            None => config.format != Format::Long && !config.alloc_size,
        },
        r.one_by_one == (mode == StreamMode::Streaming),
{
    let long = match config.format {
        Format::Long => true,
        _ => false,
    };
    let one_by_one = match mode {
        StreamMode::Streaming => true,
        StreamMode::Batched => false,
    };
    if !(long || config.alloc_size) {
        return DirectoryOutput { total: None, one_by_one };
    }
    let mut total: u64 = 0;
    let n: usize = entries.len();
    let mut i: usize = 0;
    while i < n
        invariant
            n == entries@.len(),
            i <= n,
            sizes_fit(entries@, *config),
            total == total_size(entries@.take(i as int), *config),
        decreases n - i,
    {
        assert(entries@.take(i + 1).drop_last() =~= entries@.take(i as int));
        proof {
            lemma_total_size_grows(entries@, *config, i + 1);
        }
        let size: u64 = match entries[i].metadata() {
            Some(md) => get_block_size(md, config),
            None => 0,
        };
        total = total + size;
        i = i + 1;
    }
    assert(entries@.take(n as int) =~= entries@);
    DirectoryOutput { total: Some(total), one_by_one }
}

} // verus!
