//! What a listing shows and in which order, told by what is known of the files
//! themselves: their names, sizes, times and types.
use crate::attrs::{VfAttrs, ATTR_ATIME, ATTR_CTIME, ATTR_MTIME, ATTR_SIZE};
use crate::config::{Config, Dereference, Sort, TimeField};
use crate::entry::{PathData, PathDataDisplayName};
use crate::entry_order::{
    entry_dirs, entry_keys, entry_times_fit, vf_dirs, vf_key_fits, vf_keys, vf_name, SortFact,
};
use crate::meta::{
    law_stamp_is_exact, type_of_code, type_of_std, LsFileType, LsMeta, Timestamp,
};
use crate::order::{
    bytes_order, lemma_bytes_order_flip, lemma_components_order_flip, option_order, path_order,
    Order,
};
use crate::path::{components, extension_spec, file_name_spec, file_stem_spec};
use crate::sort::{before, law_listing_is_permutation, law_listing_is_sorted, listing_order, rearranged};
use vstd::prelude::*;

verus! {

// ---------------------------------------------------------------------------
// What is known of an entry
// ---------------------------------------------------------------------------

/// The metadata of an entry, if it was read and there is any.
pub open spec fn meta_of(e: PathData) -> Option<LsMeta> {
    match e.md {
        Some(Some(md)) => Some(md),
        _ => None,
    }
}

/// The type of an entry: the one that was told for it, or that of its metadata.
pub open spec fn type_of(e: PathData) -> Option<LsFileType> {
    match (e.ft, e.md) {
        (Some(t), _) => t,
        (None, Some(Some(LsMeta::Std(m)))) => Some(type_of_std(m.file_type)),
        (None, Some(Some(LsMeta::Vf(v)))) => Some(type_of_code(v.ftype)),
        _ => None,
    }
}

/// The name that an entry is shown by.
pub open spec fn shown_name(e: PathData) -> Seq<u8> {
    match e.display_name {
        PathDataDisplayName::Custom(n) => n@,
        PathDataDisplayName::SelfReferential => e.p_buf@,
    }
}

/// The name of the file of an entry.
pub open spec fn own_name(e: PathData) -> Seq<u8> {
    match e.display_name {
        PathDataDisplayName::Custom(n) => n@,
        PathDataDisplayName::SelfReferential => if file_name_spec(e.p_buf@) is Some {
            file_name_spec(e.p_buf@)->0
        } else {
            e.p_buf@
        },
    }
}

/// Nanoseconds from the start of 1970 to a time; 0 for one that is not known.
pub open spec fn since_1970(t: Option<Timestamp>) -> int {
    if t is Some {
        t->0.secs * 1_000_000_000 + t->0.nanos
    } else {
        0
    }
}

/// When a file was last modified, read or changed, or when it was made, in
/// nanoseconds from the start of 1970; 0 where that is not known.
pub open spec fn timestamp_of(md: LsMeta, field: TimeField) -> int {
    match (md, field) {
        (LsMeta::Std(m), TimeField::Modification) => since_1970(m.modified),
        (LsMeta::Std(m), TimeField::Access) => since_1970(m.accessed),
        (LsMeta::Std(m), TimeField::Birth) => since_1970(m.created),
        (LsMeta::Std(m), TimeField::Change) => m.ctime_sec * 1_000_000_000 + m.ctime_nsec,
        (LsMeta::Vf(v), TimeField::Modification) => if v.returned.bits & ATTR_MTIME == ATTR_MTIME {
            v.mtime_sec * 1_000_000_000 + v.mtime_nsec
        } else {
            0
        },
        (LsMeta::Vf(v), TimeField::Access) => if v.returned.bits & ATTR_ATIME == ATTR_ATIME {
            v.atime_sec * 1_000_000_000 + v.atime_nsec
        } else {
            0
        },
        (LsMeta::Vf(v), TimeField::Change) => if v.returned.bits & ATTR_CTIME == ATTR_CTIME {
            v.ctime_sec * 1_000_000_000 + v.ctime_nsec
        } else {
            0
        },
        (LsMeta::Vf(_), TimeField::Birth) => 0,
    }
}

/// How many bytes a file holds; 0 where that is not known.
pub open spec fn bytes_in(md: Option<LsMeta>) -> int {
    match md {
        Some(LsMeta::Std(m)) => m.len as int,
        Some(LsMeta::Vf(v)) => if v.returned.bits & ATTR_SIZE == ATTR_SIZE {
            v.size as int
        } else {
            0
        },
        None => 0,
    }
}

pub open spec fn time_in(md: Option<LsMeta>, field: TimeField) -> int {
    match md {
        Some(m) => timestamp_of(m, field),
        None => 0,
    }
}

/// Whether an entry counts as a directory: by what a followed link leads to, if
/// that is known, and else by what was found out for it.
pub open spec fn counts_as_dir(e: PathData, fact: SortFact) -> bool {
    if e.must_dereference && type_of(e) is Some {
        type_of(e) == Some(LsFileType::Dir)
    } else {
        fact.leads_to_dir
    }
}

// ---------------------------------------------------------------------------
// Order
// ---------------------------------------------------------------------------

/// Whether entries were put in the order of a listing.
pub open spec fn puts_in_order(
    entries: Seq<PathData>,
    facts: Seq<SortFact>,
    config: Config,
    order: Seq<usize>,
    sorted: Seq<PathData>,
) -> bool {
    &&& entries.len() == facts.len()
    &&& listing_order(entry_keys(entries, facts, config), entry_dirs(entries, facts), config, order)
    &&& sorted == rearranged(entries, order)
}

/// Whether two entries stand in one group, so that what they are sorted by
/// decides which comes first.
pub open spec fn one_group(
    entries: Seq<PathData>,
    facts: Seq<SortFact>,
    config: Config,
    i: int,
    j: int,
) -> bool {
    ||| !config.group_directories_first
    ||| config.sort == Sort::Unsorted
    ||| counts_as_dir(entries[i], facts[i]) == counts_as_dir(entries[j], facts[j])
}

/// Whether the first of two entries may stand before the second: it comes first,
/// or the two do not differ and it stood first before. A reversed listing turns
/// all of this round.
pub open spec fn in_turn(reverse: bool, first: bool, same: bool, i: int, j: int) -> bool {
    if reverse {
        !first && (same ==> j < i)
    } else {
        (first || same) && (same ==> i < j)
    }
}

/// Every place of a sorted listing holds the entry that the order names, and
/// every entry has a place.
pub proof fn law_sorted_listing_holds_all_entries(
    entries: Seq<PathData>,
    facts: Seq<SortFact>,
    config: Config,
    order: Seq<usize>,
    sorted: Seq<PathData>,
)
    requires
        puts_in_order(entries, facts, config, order, sorted),
    ensures
        sorted.len() == entries.len(),
        order.no_duplicates(),
        forall|k: int|
            0 <= k < sorted.len() ==> (#[trigger] order[k]) < entries.len() && sorted[k]
                == entries[order[k] as int],
        forall|i: usize| i < entries.len() ==> #[trigger] order.contains(i),
{
    law_listing_is_permutation(
        entry_keys(entries, facts, config),
        entry_dirs(entries, facts),
        config,
        order,
    );
}

proof fn lemma_pair(
    entries: Seq<PathData>,
    facts: Seq<SortFact>,
    config: Config,
    order: Seq<usize>,
    sorted: Seq<PathData>,
    a: int,
    b: int,
)
    requires
        puts_in_order(entries, facts, config, order, sorted),
        0 <= a < b < sorted.len(),
    ensures
        order[a] < entries.len(),
        order[b] < entries.len(),
        order[a] != order[b],
        sorted[a] == entries[order[a] as int],
        sorted[b] == entries[order[b] as int],
        config.group_directories_first && config.sort != Sort::Unsorted && counts_as_dir(
            sorted[b],
            facts[order[b] as int],
        ) ==> counts_as_dir(sorted[a], facts[order[a] as int]),
        one_group(entries, facts, config, order[a] as int, order[b] as int) ==> if config.reverse {
            before(entry_keys(entries, facts, config), order[b] as int, order[a] as int)
        } else {
            before(entry_keys(entries, facts, config), order[a] as int, order[b] as int)
        },
{
    law_sorted_listing_holds_all_entries(entries, facts, config, order, sorted);
    law_listing_is_sorted(
        entry_keys(entries, facts, config),
        entry_dirs(entries, facts),
        config,
        order,
        a,
        b,
    );
}

/// Where directories are grouped, none stands behind an entry that is none,
/// whatever the rest of the order, and reversed or not.
pub proof fn law_directories_stand_first(
    entries: Seq<PathData>,
    facts: Seq<SortFact>,
    config: Config,
    order: Seq<usize>,
    sorted: Seq<PathData>,
    a: int,
    b: int,
)
    requires
        puts_in_order(entries, facts, config, order, sorted),
        config.group_directories_first,
        config.sort != Sort::Unsorted,
        0 <= a < b < sorted.len(),
        counts_as_dir(sorted[b], facts[order[b] as int]),
    ensures
        counts_as_dir(sorted[a], facts[order[a] as int]),
{
    lemma_pair(entries, facts, config, order, sorted, a, b);
}

proof fn lemma_time_in(md: LsMeta, field: TimeField)
    requires
        crate::entry_order::ls_time_fits(md, field),
    ensures
        crate::entry_order::time_value(crate::entry_order::ls_time_spec(md, field))
            == timestamp_of(md, field),
{
    let zero = Timestamp { secs: 0, nanos: 0 };
    law_stamp_is_exact(0, 0, zero);
    match md {
        LsMeta::Std(m) => {
            if field == TimeField::Change {
                law_stamp_is_exact(m.ctime_sec as int, m.ctime_nsec as int, zero);
            }
        },
        LsMeta::Vf(v) => {
            if field == TimeField::Change && v.returned.has(ATTR_CTIME) {
                law_stamp_is_exact(v.ctime_sec as int, v.ctime_nsec as int, zero);
            }
            if field == TimeField::Modification && v.returned.has(ATTR_MTIME) {
                law_stamp_is_exact(v.mtime_sec as int, v.mtime_nsec as int, zero);
            }
            if field == TimeField::Access && v.returned.has(ATTR_ATIME) {
                law_stamp_is_exact(v.atime_sec as int, v.atime_nsec as int, zero);
            }
        },
    }
}

/// Each time of a file is the one that was read, to the nanosecond; a time that was
/// not told is the start of 1970.
pub proof fn law_times_are_as_read(md: LsMeta)
    ensures
        md.mtime_fits() ==> md.mtime_spec().total() == timestamp_of(md, TimeField::Modification),
        md.atime_fits() ==> md.atime_spec().total() == timestamp_of(md, TimeField::Access),
        md.ctime_fits() ==> md.ctime_spec().total() == timestamp_of(md, TimeField::Change),
        md matches LsMeta::Std(m) ==> {
            &&& m.modified is Some ==> md.mtime_spec() == m.modified->0
            &&& m.accessed is Some ==> md.atime_spec() == m.accessed->0
            &&& crate::entry_order::ls_time_spec(md, TimeField::Birth) == m.created
        },
        md is Vf ==> crate::entry_order::ls_time_spec(md, TimeField::Birth) is None,
        crate::entry_order::ls_time_spec(md, TimeField::Modification) == Some(md.mtime_spec()),
        crate::entry_order::ls_time_spec(md, TimeField::Access) == Some(md.atime_spec()),
        crate::entry_order::ls_time_spec(md, TimeField::Change) == Some(md.ctime_spec()),
{
    if md.mtime_fits() {
        lemma_time_in(md, TimeField::Modification);
    }
    if md.atime_fits() {
        lemma_time_in(md, TimeField::Access);
    }
    if md.ctime_fits() {
        lemma_time_in(md, TimeField::Change);
    }
}

/// Sorted by time, of two entries the one whose time of the chosen field is later
/// stands first; entries of one time keep their places.
pub proof fn law_newest_entries_come_first(
    entries: Seq<PathData>,
    facts: Seq<SortFact>,
    config: Config,
    order: Seq<usize>,
    sorted: Seq<PathData>,
    a: int,
    b: int,
)
    requires
        puts_in_order(entries, facts, config, order, sorted),
        entry_times_fit(entries, config),
        config.sort == Sort::Time,
        0 <= a < b < sorted.len(),
        one_group(entries, facts, config, order[a] as int, order[b] as int),
    ensures
        ({
            let x = time_in(meta_of(sorted[a]), config.time);
            let y = time_in(meta_of(sorted[b]), config.time);
            in_turn(config.reverse, x > y, x == y, order[a] as int, order[b] as int)
        }),
{
    lemma_pair(entries, facts, config, order, sorted, a, b);
    if meta_of(sorted[a]) is Some {
        lemma_time_in(meta_of(sorted[a])->0, config.time);
    }
    if meta_of(sorted[b]) is Some {
        lemma_time_in(meta_of(sorted[b])->0, config.time);
    }
}

/// Sorted by size, of two entries the larger stands first; entries of one size
/// come in the order of their names.
pub proof fn law_largest_entries_come_first(
    entries: Seq<PathData>,
    facts: Seq<SortFact>,
    config: Config,
    order: Seq<usize>,
    sorted: Seq<PathData>,
    a: int,
    b: int,
)
    requires
        puts_in_order(entries, facts, config, order, sorted),
        config.sort == Sort::Size,
        0 <= a < b < sorted.len(),
        one_group(entries, facts, config, order[a] as int, order[b] as int),
    ensures
        ({
            let x = bytes_in(meta_of(sorted[a]));
            let y = bytes_in(meta_of(sorted[b]));
            let m = own_name(sorted[a]);
            let n = own_name(sorted[b]);
            in_turn(
                config.reverse,
                x > y || (x == y && bytes_order(m, n) == Order::Less),
                x == y && m == n,
                order[a] as int,
                order[b] as int,
            )
        }),
{
    lemma_pair(entries, facts, config, order, sorted, a, b);
    lemma_bytes_order_flip(own_name(sorted[a]), own_name(sorted[b]));
}

/// Sorted by name without a locale, entries come in the order of the bytes that
/// they are shown by.
pub proof fn law_entries_come_by_name(
    entries: Seq<PathData>,
    facts: Seq<SortFact>,
    config: Config,
    order: Seq<usize>,
    sorted: Seq<PathData>,
    a: int,
    b: int,
)
    requires
        puts_in_order(entries, facts, config, order, sorted),
        config.sort == Sort::Name,
        0 <= a < b < sorted.len(),
        one_group(entries, facts, config, order[a] as int, order[b] as int),
    ensures
        !config.locale_collation ==> in_turn(
            config.reverse,
            bytes_order(shown_name(sorted[a]), shown_name(sorted[b])) == Order::Less,
            shown_name(sorted[a]) == shown_name(sorted[b]),
            order[a] as int,
            order[b] as int,
        ),
        config.locale_collation ==> in_turn(
            config.reverse,
            facts[order[a] as int].rank < facts[order[b] as int].rank,
            facts[order[a] as int].rank == facts[order[b] as int].rank,
            order[a] as int,
            order[b] as int,
        ),
{
    lemma_pair(entries, facts, config, order, sorted, a, b);
    lemma_bytes_order_flip(shown_name(sorted[a]), shown_name(sorted[b]));
}

/// Sorted by version, entries come in the order of their ranks, and then of their
/// paths.
pub proof fn law_entries_come_by_version(
    entries: Seq<PathData>,
    facts: Seq<SortFact>,
    config: Config,
    order: Seq<usize>,
    sorted: Seq<PathData>,
    a: int,
    b: int,
)
    requires
        puts_in_order(entries, facts, config, order, sorted),
        config.sort == Sort::Version,
        0 <= a < b < sorted.len(),
        one_group(entries, facts, config, order[a] as int, order[b] as int),
    ensures
        ({
            let x = facts[order[a] as int].rank;
            let y = facts[order[b] as int].rank;
            in_turn(
                config.reverse,
                x < y || (x == y && path_order(sorted[a].p_buf@, sorted[b].p_buf@) == Order::Less),
                x == y && components(sorted[a].p_buf@) == components(sorted[b].p_buf@),
                order[a] as int,
                order[b] as int,
            )
        }),
{
    lemma_pair(entries, facts, config, order, sorted, a, b);
    lemma_components_order_flip(components(sorted[a].p_buf@), components(sorted[b].p_buf@));
}

/// Sorted by extension, entries come in the order of their extensions, those
/// without one first, and then of the rest of their names.
pub proof fn law_entries_come_by_extension(
    entries: Seq<PathData>,
    facts: Seq<SortFact>,
    config: Config,
    order: Seq<usize>,
    sorted: Seq<PathData>,
    a: int,
    b: int,
)
    requires
        puts_in_order(entries, facts, config, order, sorted),
        config.sort == Sort::Extension,
        0 <= a < b < sorted.len(),
        one_group(entries, facts, config, order[a] as int, order[b] as int),
    ensures
        ({
            let e = extension_spec(sorted[a].p_buf@);
            let f = extension_spec(sorted[b].p_buf@);
            let s = file_stem_spec(sorted[a].p_buf@);
            let t = file_stem_spec(sorted[b].p_buf@);
            in_turn(
                config.reverse,
                option_order(e, f) == Order::Less || (e == f && option_order(s, t) == Order::Less),
                e == f && s == t,
                order[a] as int,
                order[b] as int,
            )
        }),
{
    lemma_pair(entries, facts, config, order, sorted, a, b);
    lemma_options(extension_spec(sorted[a].p_buf@), extension_spec(sorted[b].p_buf@));
    lemma_options(file_stem_spec(sorted[a].p_buf@), file_stem_spec(sorted[b].p_buf@));
}

proof fn lemma_options(a: Option<Seq<u8>>, b: Option<Seq<u8>>)
    ensures
        option_order(a, b) == crate::order::flipped(option_order(b, a)),
        option_order(a, b) == Order::Equal <==> a == b,
{
    if a is Some && b is Some {
        lemma_bytes_order_flip(a->0, b->0);
    }
}

/// Sorted by width, entries with shorter names stand first, and names of one
/// length come in the order of their bytes.
pub proof fn law_shortest_names_come_first(
    entries: Seq<PathData>,
    facts: Seq<SortFact>,
    config: Config,
    order: Seq<usize>,
    sorted: Seq<PathData>,
    a: int,
    b: int,
)
    requires
        puts_in_order(entries, facts, config, order, sorted),
        config.sort == Sort::Width,
        0 <= a < b < sorted.len(),
        one_group(entries, facts, config, order[a] as int, order[b] as int),
    ensures
        ({
            let m = shown_name(sorted[a]);
            let n = shown_name(sorted[b]);
            in_turn(
                config.reverse,
                m.len() < n.len() || (m.len() == n.len() && bytes_order(m, n) == Order::Less),
                m == n,
                order[a] as int,
                order[b] as int,
            )
        }),
{
    lemma_pair(entries, facts, config, order, sorted, a, b);
    lemma_bytes_order_flip(shown_name(sorted[a]), shown_name(sorted[b]));
}

/// Unsorted entries keep their places, or are turned round as a whole.
pub proof fn law_unsorted_entries_keep_their_places(
    entries: Seq<PathData>,
    facts: Seq<SortFact>,
    config: Config,
    order: Seq<usize>,
    sorted: Seq<PathData>,
    a: int,
    b: int,
)
    requires
        puts_in_order(entries, facts, config, order, sorted),
        config.sort == Sort::Unsorted,
        0 <= a < b < sorted.len(),
    ensures
        if config.reverse {
            order[b] < order[a]
        } else {
            order[a] < order[b]
        },
{
    lemma_pair(entries, facts, config, order, sorted, a, b);
}

// ---------------------------------------------------------------------------
// Reports of the backend
// ---------------------------------------------------------------------------

/// Whether reports were put in the order of a listing.
pub open spec fn puts_reports_in_order(
    reports: Seq<VfAttrs>,
    facts: Seq<SortFact>,
    config: Config,
    order: Seq<usize>,
    sorted: Seq<VfAttrs>,
) -> bool {
    &&& reports.len() == facts.len()
    &&& listing_order(vf_keys(reports, facts, config), vf_dirs(facts, config), config, order)
    &&& sorted == rearranged(reports, order)
}

/// What is known of a reported file: what following found, where links are
/// followed everywhere, and else the report.
pub open spec fn meta_of_report(a: VfAttrs, fact: SortFact, config: Config) -> Option<LsMeta> {
    if config.dereference == Dereference::All {
        if fact.followed is Some {
            Some(LsMeta::Std(fact.followed->0))
        } else {
            None
        }
    } else {
        Some(LsMeta::Vf(a))
    }
}

/// Whether a reported file counts as a directory.
pub open spec fn report_counts_as_dir(fact: SortFact, config: Config) -> bool {
    if config.dereference == Dereference::All && fact.followed is Some {
        type_of_std(fact.followed->0.file_type) == LsFileType::Dir
    } else {
        fact.leads_to_dir
    }
}

/// Whether two reports stand in one group, so that what they are sorted by decides
/// which comes first.
pub open spec fn one_report_group(facts: Seq<SortFact>, config: Config, i: int, j: int) -> bool {
    ||| !config.group_directories_first
    ||| config.sort == Sort::Unsorted
    ||| report_counts_as_dir(facts[i], config) == report_counts_as_dir(facts[j], config)
}

proof fn lemma_report_pair(
    reports: Seq<VfAttrs>,
    facts: Seq<SortFact>,
    config: Config,
    order: Seq<usize>,
    sorted: Seq<VfAttrs>,
    a: int,
    b: int,
)
    requires
        puts_reports_in_order(reports, facts, config, order, sorted),
        0 <= a < b < sorted.len(),
    ensures
        order[a] < reports.len(),
        order[b] < reports.len(),
        order[a] != order[b],
        sorted[a] == reports[order[a] as int],
        sorted[b] == reports[order[b] as int],
        config.group_directories_first && config.sort != Sort::Unsorted && report_counts_as_dir(
            facts[order[b] as int],
            config,
        ) ==> report_counts_as_dir(facts[order[a] as int], config),
        one_report_group(facts, config, order[a] as int, order[b] as int) ==> if config.reverse {
            before(vf_keys(reports, facts, config), order[b] as int, order[a] as int)
        } else {
            before(vf_keys(reports, facts, config), order[a] as int, order[b] as int)
        },
{
    let keys = vf_keys(reports, facts, config);
    let dirs = vf_dirs(facts, config);
    law_listing_is_permutation(keys, dirs, config, order);
    law_listing_is_sorted(keys, dirs, config, order, a, b);
}

/// Where directories are grouped, no reported directory stands behind a file.
pub proof fn law_reported_directories_stand_first(
    reports: Seq<VfAttrs>,
    facts: Seq<SortFact>,
    config: Config,
    order: Seq<usize>,
    sorted: Seq<VfAttrs>,
    a: int,
    b: int,
)
    requires
        puts_reports_in_order(reports, facts, config, order, sorted),
        config.group_directories_first,
        config.sort != Sort::Unsorted,
        0 <= a < b < sorted.len(),
        report_counts_as_dir(facts[order[b] as int], config),
    ensures
        report_counts_as_dir(facts[order[a] as int], config),
{
    lemma_report_pair(reports, facts, config, order, sorted, a, b);
}

/// Reports sorted by time: the later time of the chosen field stands first.
pub proof fn law_newest_reports_come_first(
    reports: Seq<VfAttrs>,
    facts: Seq<SortFact>,
    config: Config,
    order: Seq<usize>,
    sorted: Seq<VfAttrs>,
    a: int,
    b: int,
)
    requires
        puts_reports_in_order(reports, facts, config, order, sorted),
        forall|i: int|
            0 <= i < reports.len() ==> vf_key_fits(#[trigger] reports[i], facts[i], config),
        config.sort == Sort::Time,
        0 <= a < b < sorted.len(),
        one_report_group(facts, config, order[a] as int, order[b] as int),
    ensures
        ({
            let x = time_in(
                meta_of_report(sorted[a], facts[order[a] as int], config),
                config.time,
            );
            let y = time_in(
                meta_of_report(sorted[b], facts[order[b] as int], config),
                config.time,
            );
            in_turn(config.reverse, x > y, x == y, order[a] as int, order[b] as int)
        }),
{
    lemma_report_pair(reports, facts, config, order, sorted, a, b);
    let p = meta_of_report(sorted[a], facts[order[a] as int], config);
    let q = meta_of_report(sorted[b], facts[order[b] as int], config);
    assert(vf_key_fits(reports[order[a] as int], facts[order[a] as int], config));
    assert(vf_key_fits(reports[order[b] as int], facts[order[b] as int], config));
    if p is Some {
        lemma_time_in(p->0, config.time);
    }
    if q is Some {
        lemma_time_in(q->0, config.time);
    }
}

/// Reports sorted by size, by name or by width: the larger, the name of smaller
/// bytes, the shorter name stands first.
pub proof fn law_reports_come_in_order(
    reports: Seq<VfAttrs>,
    facts: Seq<SortFact>,
    config: Config,
    order: Seq<usize>,
    sorted: Seq<VfAttrs>,
    a: int,
    b: int,
)
    requires
        puts_reports_in_order(reports, facts, config, order, sorted),
        0 <= a < b < sorted.len(),
        one_report_group(facts, config, order[a] as int, order[b] as int),
    ensures
        ({
            let i = order[a] as int;
            let j = order[b] as int;
            let x = bytes_in(meta_of_report(sorted[a], facts[i], config));
            let y = bytes_in(meta_of_report(sorted[b], facts[j], config));
            let m = vf_name(sorted[a]);
            let n = vf_name(sorted[b]);
            let by_name = bytes_order(m, n) == Order::Less;
            &&& config.sort == Sort::Size ==> in_turn(
                config.reverse,
                x > y || (x == y && by_name),
                x == y && m == n,
                i,
                j,
            )
            &&& config.sort == Sort::Name && !config.locale_collation ==> in_turn(
                config.reverse,
                by_name,
                m == n,
                i,
                j,
            )
            &&& config.sort == Sort::Name && config.locale_collation ==> in_turn(
                config.reverse,
                facts[i].rank < facts[j].rank,
                facts[i].rank == facts[j].rank,
                i,
                j,
            )
            &&& config.sort == Sort::Width ==> in_turn(
                config.reverse,
                m.len() < n.len() || (m.len() == n.len() && by_name),
                m == n,
                i,
                j,
            )
            &&& config.sort == Sort::Unsorted ==> in_turn(config.reverse, false, true, i, j)
        }),
{
    lemma_report_pair(reports, facts, config, order, sorted, a, b);
    lemma_bytes_order_flip(vf_name(sorted[a]), vf_name(sorted[b]));
}

/// Reports sorted by version or by extension: by their ranks and then their paths, or
/// by their extensions and then the rest of their names. What has no path stands
/// first.
pub proof fn law_reports_come_by_version_and_extension(
    reports: Seq<VfAttrs>,
    facts: Seq<SortFact>,
    config: Config,
    order: Seq<usize>,
    sorted: Seq<VfAttrs>,
    a: int,
    b: int,
)
    requires
        puts_reports_in_order(reports, facts, config, order, sorted),
        0 <= a < b < sorted.len(),
        one_report_group(facts, config, order[a] as int, order[b] as int),
    ensures
        ({
            let i = order[a] as int;
            let j = order[b] as int;
            let x = facts[i].rank;
            let y = facts[j].rank;
            let p = sorted[a].path;
            let q = sorted[b].path;
            let path_first = (p is None && q is Some) || (p is Some && q is Some && path_order(
                (p->0)@,
                (q->0)@,
            ) == Order::Less);
            let path_same = (p is None && q is None) || (p is Some && q is Some && components(
                (p->0)@,
            ) == components((q->0)@));
            let e = extension_of(p);
            let f = extension_of(q);
            let s = stem_of(p);
            let t = stem_of(q);
            &&& config.sort == Sort::Version ==> in_turn(
                config.reverse,
                x < y || (x == y && path_first),
                x == y && path_same,
                i,
                j,
            )
            &&& config.sort == Sort::Extension ==> in_turn(
                config.reverse,
                option_order(e, f) == Order::Less || (e == f && option_order(s, t) == Order::Less),
                e == f && s == t,
                i,
                j,
            )
        }),
{
    lemma_report_pair(reports, facts, config, order, sorted, a, b);
    let p = sorted[a].path;
    let q = sorted[b].path;
    if p is Some && q is Some {
        lemma_components_order_flip(components((p->0)@), components((q->0)@));
    }
    lemma_options(extension_of(p), extension_of(q));
    lemma_options(stem_of(p), stem_of(q));
}

pub open spec fn extension_of(path: Option<Vec<u8>>) -> Option<Seq<u8>> {
    match path {
        Some(p) => extension_spec(p@),
        None => None,
    }
}

pub open spec fn stem_of(path: Option<Vec<u8>>) -> Option<Seq<u8>> {
    match path {
        Some(p) => file_stem_spec(p@),
        None => None,
    }
}

/// A reported file has the name that its path ends in, and none where it has no
/// path or the path ends in no name.
pub proof fn law_reports_are_named_by_their_path(a: VfAttrs)
    ensures
        a.path matches Some(p) ==> (file_name_spec(p@) matches Some(n) ==> vf_name(a) == n),
        a.path is None || file_name_spec((a.path->0)@) is None ==> vf_name(a).len() == 0,
{
}

} // verus!
