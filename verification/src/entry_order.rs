//! The order in which the entries of a directory are listed, from either source.
use crate::attrs::{VfAttrs, ATTR_ATIME, ATTR_CTIME, ATTR_MTIME, ATTR_SIZE};
use crate::config::{Config, Dereference, Sort, TimeField};
use crate::entry::{same_attrs, wrap_meta, PathData, PathDataDisplayName};
use crate::meta::{type_of_std, LsFileType, LsMeta, StdMetadata, Timestamp};
use crate::order::{int_order, lemma_components_order_common, or_else, path_order, Order};
use crate::path::{
    components, copy_bytes, extension, extension_spec, file_name, file_name_spec, file_stem,
    file_stem_spec, join_spec, lemma_child_path, lemma_file_name_is_plain, Component,
};
use crate::rank::ranked;
use crate::sort::{
    arrange, arranged, arrangement, before, key_order, keys_view, law_listing_is_permutation, listing_order,
    option_view, ordered, rearrange, rearranged, Key, SortKey,
};
use vstd::prelude::*;

verus! {

// ---------------------------------------------------------------------------
// Times
// ---------------------------------------------------------------------------

/// The time of an entry that a listing is about.
pub open spec fn ls_time_spec(md: LsMeta, field: TimeField) -> Option<Timestamp> {
    match field {
        TimeField::Change => Some(md.ctime_spec()),
        TimeField::Modification => Some(md.mtime_spec()),
        TimeField::Access => Some(md.atime_spec()),
        TimeField::Birth => match md {
            LsMeta::Std(m) => m.created,
            LsMeta::Vf(_) => None,
        },
    }
}

/// Whether that time can be held.
pub open spec fn ls_time_fits(md: LsMeta, field: TimeField) -> bool {
    match field {
        TimeField::Change => md.ctime_fits(),
        TimeField::Modification => md.mtime_fits(),
        TimeField::Access => md.atime_fits(),
        TimeField::Birth => true,
    }
}

/// The time of an entry that a listing is about; the backend tells no time of birth.
pub fn ls_time(md: &LsMeta, md_time: TimeField) -> (r: Option<Timestamp>)
    requires
        ls_time_fits(*md, md_time),
    ensures
        r == ls_time_spec(*md, md_time),
{
    match md_time {
        TimeField::Change => Some(md.ctime()),
        TimeField::Modification => Some(md.mtime()),
        TimeField::Access => Some(md.atime()),
        TimeField::Birth => match md.as_std_metadata() {
            Some(m) => m.created,
            None => None,
        },
    }
}

/// The time of a file that the backend reported; the same as that of its entry.
pub fn vf_time(a: &VfAttrs, field: TimeField) -> (r: Option<Timestamp>)
    requires
        ls_time_fits(LsMeta::Vf(*a), field),
    ensures
        r == ls_time_spec(LsMeta::Vf(*a), field),
{
    let (returned, sec, nsec): (bool, i64, u32) = match field {
        TimeField::Modification => (a.returned.contains(ATTR_MTIME), a.mtime_sec, a.mtime_nsec),
        TimeField::Access => (a.returned.contains(ATTR_ATIME), a.atime_sec, a.atime_nsec),
        TimeField::Change => (a.returned.contains(ATTR_CTIME), a.ctime_sec, a.ctime_nsec),
        TimeField::Birth => {
            return None;
        },
    };
    if returned {
        Some(LsMeta::secs_nsecs(sec, nsec))
    } else {
        Some(Timestamp::epoch())
    }
}

/// Nanoseconds since the start of 1970; a time that is not known counts as that.
pub open spec fn time_value(t: Option<Timestamp>) -> int {
    match t {
        Some(t) => t.total(),
        None => 0,
    }
}

fn nanoseconds(t: Option<Timestamp>) -> (r: i128)
    ensures
        r == time_value(t),
{
    match t {
        Some(t) => t.secs as i128 * 1_000_000_000i128 + t.nanos as i128,
        None => 0,
    }
}

// ---------------------------------------------------------------------------
// Entries
// ---------------------------------------------------------------------------

/// What sorting an entry takes beside the entry itself.
#[derive(Clone, Copy, Debug, PartialEq, Eq, Structural)]
pub struct SortFact {
    /// The place of the name among all names, by the rules of the locale or of
    /// versions; names that these rules do not tell apart have one place.
    pub rank: u64,
    /// Whether following the path leads to a directory.
    pub leads_to_dir: bool,
    /// What following the path found, where links are followed everywhere. An
    /// entry knows this itself; a report of the backend does not.
    pub followed: Option<StdMetadata>,
}

/// What an entry is sorted by.
pub open spec fn entry_key(e: PathData, rank: u64, config: Config) -> Key {
    match config.sort {
        Sort::Time => Key::Time(
            time_value(
                match e.known_md() {
                    Some(md) => ls_time_spec(md, config.time),
                    None => None,
                },
            ),
        ),
        Sort::Size => Key::Size(
            match e.known_md() {
                Some(md) => md.len_spec() as int,
                None => 0,
            },
            e.name(),
        ),
        Sort::Name => if config.locale_collation {
            Key::Rank(rank as int)
        } else {
            Key::Name(e.shown())
        },
        Sort::Version => Key::Version(rank as int, Some(e.p_buf@)),
        Sort::Extension => Key::Extension(extension_spec(e.p_buf@), file_stem_spec(e.p_buf@)),
        Sort::Width => Key::Width(e.shown().len() as int, e.shown()),
        Sort::Unsorted => Key::Same,
    }
}

/// Whether an entry is grouped with the directories. Links are followed for that.
pub open spec fn groups_as_dir(e: PathData, leads_to_dir: bool) -> bool {
    if e.must_dereference && e.known_ft() is Some {
        e.known_ft() == Some(LsFileType::Dir)
    } else {
        leads_to_dir
    }
}

pub open spec fn entry_keys(entries: Seq<PathData>, facts: Seq<SortFact>, config: Config) -> Seq<
    Key,
> {
    Seq::new(entries.len(), |i: int| entry_key(entries[i], facts[i].rank, config))
}

pub open spec fn entry_dirs(entries: Seq<PathData>, facts: Seq<SortFact>) -> Seq<bool> {
    Seq::new(entries.len(), |i: int| groups_as_dir(entries[i], facts[i].leads_to_dir))
}

/// Whether the times that the entries are sorted by can be held.
pub open spec fn entry_times_fit(entries: Seq<PathData>, config: Config) -> bool {
    config.sort == Sort::Time ==> forall|i: int|
        0 <= i < entries.len() ==> ((#[trigger] entries[i]).known_md() matches Some(md)
            ==> ls_time_fits(md, config.time))
}

fn option_copy(o: Option<&[u8]>) -> (r: Option<Vec<u8>>)
    ensures
        match o {
            Some(s) => option_view(r) == Some(s@),
            None => option_view(r) is None,
        },
{
    match o {
        Some(s) => Some(copy_bytes(s)),
        None => None,
    }
}

fn key_of_entry(e: &PathData, rank: u64, config: &Config) -> (r: SortKey)
    requires
        config.sort == Sort::Time ==> (e.known_md() matches Some(md) ==> ls_time_fits(
            md,
            config.time,
        )),
    ensures
        r@ == entry_key(*e, rank, *config),
{
    match config.sort {
        Sort::Time => {
            let t = match e.metadata() {
                Some(md) => ls_time(md, config.time),
                None => None,
            };
            SortKey::Time(nanoseconds(t))
        },
        Sort::Size => {
            let len: u64 = match e.metadata() {
                Some(md) => md.len(),
                None => 0,
            };
            SortKey::Size(len, copy_bytes(e.file_name()))
        },
        Sort::Name => {
            if config.locale_collation {
                SortKey::Rank(rank)
            } else {
                SortKey::Name(copy_bytes(e.display_name()))
            }
        },
        Sort::Version => SortKey::Version(rank, Some(copy_bytes(e.path()))),
        Sort::Extension => SortKey::Extension(
            option_copy(extension(e.path())),
            option_copy(file_stem(e.path())),
        ),
        Sort::Width => {
            let name = e.display_name();
            SortKey::Width(name.len() as u64, copy_bytes(name))
        },
        Sort::Unsorted => SortKey::Same,
    }
}

fn is_grouped_as_dir(e: &PathData, leads_to_dir: bool) -> (r: bool)
    ensures
        r == groups_as_dir(*e, leads_to_dir),
{
    let ft = if e.must_dereference {
        e.file_type()
    } else {
        None
    };
    match ft {
        None => leads_to_dir,
        Some(ft) => ft.is_dir(),
    }
}

/// Puts entries in the order in which they are listed. Entries that the order
/// does not tell apart keep their places.
pub fn sort_entries(entries: &mut Vec<PathData>, facts: &Vec<SortFact>, config: &Config)
    requires
        old(entries)@.len() == facts@.len(),
        entry_times_fit(old(entries)@, *config),
    ensures
        exists|order: Seq<usize>| #[trigger]
            listing_order(
                entry_keys(old(entries)@, facts@, *config),
                entry_dirs(old(entries)@, facts@),
                *config,
                order,
            ) && final(entries)@ == rearranged(old(entries)@, order),
{
    let ghost all = entries@;
    let mut keys: Vec<SortKey> = Vec::new();
    let mut dirs: Vec<bool> = Vec::new();
    let n: usize = entries.len();
    let mut i: usize = 0;
    while i < n
        invariant
            n == all.len(),
            n == facts@.len(),
            entries@ == all,
            entry_times_fit(all, *config),
            i <= n,
            keys@.len() == i,
            dirs@.len() == i,
            forall|k: int|
                0 <= k < i ==> (#[trigger] keys@[k])@ == entry_key(all[k], facts@[k].rank, *config),
            forall|k: int|
                0 <= k < i ==> #[trigger] dirs@[k] == groups_as_dir(all[k], facts@[k].leads_to_dir),
        decreases n - i,
    {
        keys.push(key_of_entry(&entries[i], facts[i].rank, config));
        dirs.push(is_grouped_as_dir(&entries[i], facts[i].leads_to_dir));
        i = i + 1;
    }
    assert(keys_view(keys@) =~= entry_keys(all, facts@, *config));
    assert(dirs@ =~= entry_dirs(all, facts@));
    let order = arrange(&keys, &dirs, config);
    proof {
        law_listing_is_permutation(keys_view(keys@), dirs@, *config, order@);
    }
    let mut taken: Vec<PathData> = Vec::new();
    std::mem::swap(entries, &mut taken);
    *entries = rearrange(taken, &order);
}

pub open spec fn fact_ranks(facts: Seq<SortFact>) -> Seq<u64> {
    Seq::new(facts.len(), |i: int| facts[i].rank)
}

/// With ranks that were found by comparing names, entries come in the order of
/// these comparisons: by locale as they say, and by version so too, and then by
/// path.
pub proof fn law_entries_sort_as_names_compare(
    entries: Seq<PathData>,
    facts: Seq<SortFact>,
    order: spec_fn(int, int) -> Order,
    config: Config,
    i: int,
    j: int,
)
    requires
        entries.len() == facts.len(),
        ranked(fact_ranks(facts), order),
        0 <= i < entries.len(),
        0 <= j < entries.len(),
    ensures
        ({
            let keys = entry_keys(entries, facts, config);
            &&& config.sort == Sort::Name && config.locale_collation ==> key_order(
                keys[i],
                keys[j],
            ) == order(i, j)
            &&& config.sort == Sort::Version ==> key_order(keys[i], keys[j]) == or_else(
                order(i, j),
                path_order(entries[i].p_buf@, entries[j].p_buf@),
            )
        }),
{
    let ranks = fact_ranks(facts);
    assert(int_order(ranks[i] as int, ranks[j] as int) == order(i, j));
}

// ---------------------------------------------------------------------------
// Reports of the backend
// ---------------------------------------------------------------------------

/// The name of the file that a report is about.
pub open spec fn vf_name(a: VfAttrs) -> Seq<u8> {
    match a.path {
        Some(p) => match file_name_spec(p@) {
            Some(n) => n,
            None => Seq::empty(),
        },
        None => Seq::empty(),
    }
}

/// The name of the file that a report is about, if it has one.
pub fn name_of(a: &VfAttrs) -> (r: Vec<u8>)
    ensures
        r@ == vf_name(*a),
{
    match &a.path {
        Some(p) => match file_name(p.as_slice()) {
            Some(n) => copy_bytes(n),
            None => Vec::new(),
        },
        None => Vec::new(),
    }
}

/// The metadata that a report is sorted by: its own, or that of the file found
/// by following it, where links are followed everywhere.
pub open spec fn vf_md(a: VfAttrs, fact: SortFact, config: Config) -> Option<LsMeta> {
    if config.dereference == Dereference::All {
        wrap_meta(fact.followed)
    } else {
        Some(LsMeta::Vf(a))
    }
}

/// What a report is sorted by.
pub open spec fn vf_key(a: VfAttrs, fact: SortFact, config: Config) -> Key {
    match config.sort {
        Sort::Time => Key::Time(
            time_value(
                match vf_md(a, fact, config) {
                    Some(md) => ls_time_spec(md, config.time),
                    None => None,
                },
            ),
        ),
        Sort::Size => Key::Size(
            match vf_md(a, fact, config) {
                Some(md) => md.len_spec() as int,
                None => 0,
            },
            vf_name(a),
        ),
        Sort::Name => if config.locale_collation {
            Key::Rank(fact.rank as int)
        } else {
            Key::Name(vf_name(a))
        },
        Sort::Version => Key::Version(fact.rank as int, option_view(a.path)),
        Sort::Extension => match a.path {
            Some(p) => Key::Extension(extension_spec(p@), file_stem_spec(p@)),
            None => Key::Extension(None, None),
        },
        Sort::Width => Key::Width(vf_name(a).len() as int, vf_name(a)),
        Sort::Unsorted => Key::Same,
    }
}

/// Whether a report is grouped with the directories. Links are followed for that.
pub open spec fn vf_groups_as_dir(fact: SortFact, config: Config) -> bool {
    match fact.followed {
        Some(m) if config.dereference == Dereference::All => type_of_std(m.file_type)
            == LsFileType::Dir,
        _ => fact.leads_to_dir,
    }
}

pub open spec fn vf_keys(entries: Seq<VfAttrs>, facts: Seq<SortFact>, config: Config) -> Seq<Key> {
    Seq::new(entries.len(), |i: int| vf_key(entries[i], facts[i], config))
}

pub open spec fn vf_dirs(facts: Seq<SortFact>, config: Config) -> Seq<bool> {
    Seq::new(facts.len(), |i: int| vf_groups_as_dir(facts[i], config))
}

/// Whether the time that a report is sorted by can be held.
pub open spec fn vf_key_fits(a: VfAttrs, fact: SortFact, config: Config) -> bool {
    config.sort == Sort::Time ==> (vf_md(a, fact, config) matches Some(md) ==> ls_time_fits(
        md,
        config.time,
    ))
}

fn follows_all(config: &Config) -> (r: bool)
    ensures
        r == (config.dereference == Dereference::All),
{
    match config.dereference {
        Dereference::All => true,
        _ => false,
    }
}

fn key_of_vf(a: &VfAttrs, fact: SortFact, config: &Config) -> (r: SortKey)
    requires
        vf_key_fits(*a, fact, *config),
    ensures
        r@ == vf_key(*a, fact, *config),
{
    match config.sort {
        Sort::Time => {
            let time = if follows_all(config) {
                match fact.followed {
                    Some(m) => ls_time(&LsMeta::Std(m), config.time),
                    None => None,
                }
            } else {
                vf_time(a, config.time)
            };
            SortKey::Time(nanoseconds(time))
        },
        Sort::Size => {
            let len: u64 = if follows_all(config) {
                match fact.followed {
                    Some(m) => m.len,
                    None => 0,
                }
            } else if a.returned.contains(ATTR_SIZE) {
                a.size
            } else {
                0
            };
            SortKey::Size(len, name_of(a))
        },
        Sort::Name => {
            if config.locale_collation {
                SortKey::Rank(fact.rank)
            } else {
                SortKey::Name(name_of(a))
            }
        },
        Sort::Version => SortKey::Version(
            fact.rank,
            match &a.path {
                Some(p) => Some(copy_bytes(p.as_slice())),
                None => None,
            },
        ),
        Sort::Extension => match &a.path {
            Some(p) => SortKey::Extension(
                option_copy(extension(p.as_slice())),
                option_copy(file_stem(p.as_slice())),
            ),
            None => SortKey::Extension(None, None),
        },
        Sort::Width => {
            let name = name_of(a);
            SortKey::Width(name.len() as u64, name)
        },
        Sort::Unsorted => SortKey::Same,
    }
}

fn is_vf_grouped_as_dir(fact: SortFact, config: &Config) -> (r: bool)
    ensures
        r == vf_groups_as_dir(fact, *config),
{
    if follows_all(config) {
        if let Some(m) = fact.followed {
            return LsFileType::from_std(m.file_type).is_dir();
        }
    }
    fact.leads_to_dir
}

/// Puts reports of the backend in the order in which they are listed: that of
/// the entries that stand for them.
pub fn sort_vf_entries(entries: &mut Vec<VfAttrs>, facts: &Vec<SortFact>, config: &Config)
    requires
        old(entries)@.len() == facts@.len(),
        forall|i: int|
            0 <= i < old(entries)@.len() ==> vf_key_fits(
                #[trigger] old(entries)@[i],
                facts@[i],
                *config,
            ),
    ensures
        exists|order: Seq<usize>| #[trigger]
            listing_order(
                vf_keys(old(entries)@, facts@, *config),
                vf_dirs(facts@, *config),
                *config,
                order,
            ) && final(entries)@ == rearranged(old(entries)@, order),
{
    let ghost all = entries@;
    let mut keys: Vec<SortKey> = Vec::new();
    let mut dirs: Vec<bool> = Vec::new();
    let n: usize = entries.len();
    let mut i: usize = 0;
    while i < n
        invariant
            n == all.len(),
            n == facts@.len(),
            entries@ == all,
            forall|i: int|
                0 <= i < all.len() ==> vf_key_fits(#[trigger] all[i], facts@[i], *config),
            i <= n,
            keys@.len() == i,
            dirs@.len() == i,
            forall|k: int|
                0 <= k < i ==> (#[trigger] keys@[k])@ == vf_key(all[k], facts@[k], *config),
            forall|k: int|
                0 <= k < i ==> #[trigger] dirs@[k] == vf_groups_as_dir(facts@[k], *config),
        decreases n - i,
    {
        keys.push(key_of_vf(&entries[i], facts[i], config));
        dirs.push(is_vf_grouped_as_dir(facts[i], config));
        i = i + 1;
    }
    assert(keys_view(keys@) =~= vf_keys(all, facts@, *config));
    assert(dirs@ =~= vf_dirs(facts@, *config));
    let order = arrange(&keys, &dirs, config);
    proof {
        law_listing_is_permutation(keys_view(keys@), dirs@, *config, order@);
    }
    let mut taken: Vec<VfAttrs> = Vec::new();
    std::mem::swap(entries, &mut taken);
    *entries = rearrange(taken, &order);
}

// ---------------------------------------------------------------------------
// Both sources list in one order
// ---------------------------------------------------------------------------

/// Whether `e` is the entry by which the file that `a` reports is listed in
/// `dir`, once its metadata was read. Where links are followed everywhere that
/// is what following found.
pub open spec fn listed_as(
    a: VfAttrs,
    e: PathData,
    fact: SortFact,
    dir: Seq<u8>,
    config: Config,
) -> bool {
    &&& e.p_buf@ == join_spec(dir, vf_name(a))
    &&& e.display_name matches PathDataDisplayName::Custom(n) && n@ == vf_name(a)
    &&& e.must_dereference == (config.dereference == Dereference::All)
    &&& if config.dereference == Dereference::All {
        &&& e.ft is None
        &&& e.known_md() == wrap_meta(fact.followed)
    } else {
        e.known_md() matches Some(LsMeta::Vf(v)) && same_attrs(a, v)
    }
}

/// Whether the path of a report names a file in the directory `parent`.
pub open spec fn is_in(a: VfAttrs, parent: Seq<Component>) -> bool {
    &&& a.path matches Some(p)
    &&& file_name_spec(p@) is Some
    &&& components(p@) == parent.push(Component::Normal(vf_name(a)))
}

proof fn lemma_key_matches(
    a: VfAttrs,
    e: PathData,
    fact: SortFact,
    dir: Seq<u8>,
    parent: Seq<Component>,
    config: Config,
)
    requires
        listed_as(a, e, fact, dir, config),
        is_in(a, parent),
    ensures
        components(e.p_buf@) == components(dir).push(Component::Normal(vf_name(a))),
        config.sort != Sort::Version ==> entry_key(e, fact.rank, config) == vf_key(
            a,
            fact,
            config,
        ),
{
    lemma_file_name_is_plain((a.path->0)@);
    lemma_child_path(dir, vf_name(a));
}

/// Reports of the backend on the files of one directory are put in exactly the
/// order in which the entries that stand for them are listed, in every sort mode
/// and with every other setting.
pub proof fn law_both_sources_list_alike(
    reports: Seq<VfAttrs>,
    entries: Seq<PathData>,
    facts: Seq<SortFact>,
    dir: Seq<u8>,
    parent: Seq<Component>,
    config: Config,
    order: Seq<usize>,
)
    requires
        reports.len() == entries.len() == facts.len(),
        forall|i: int| 0 <= i < reports.len() ==> is_in(#[trigger] reports[i], parent),
        forall|i: int|
            0 <= i < reports.len() ==> listed_as(
                reports[i],
                #[trigger] entries[i],
                facts[i],
                dir,
                config,
            ),
    ensures
        listing_order(vf_keys(reports, facts, config), vf_dirs(facts, config), config, order)
            == listing_order(
            entry_keys(entries, facts, config),
            entry_dirs(entries, facts),
            config,
            order,
        ),
{
    let vk = vf_keys(reports, facts, config);
    let ek = entry_keys(entries, facts, config);
    let vd = vf_dirs(facts, config);
    let ed = entry_dirs(entries, facts);
    assert(vd =~= ed) by {
        assert forall|i: int| 0 <= i < reports.len() implies vd[i] == ed[i] by {
            assert(listed_as(reports[i], entries[i], facts[i], dir, config));
        }
    }
    assert forall|i: int, j: int| 0 <= i < reports.len() && 0 <= j < reports.len() implies
        #[trigger] before(vk, i, j) == before(ek, i, j) by {
        let a = reports[i];
        let b = reports[j];
        lemma_key_matches(a, entries[i], facts[i], dir, parent, config);
        lemma_key_matches(b, entries[j], facts[j], dir, parent, config);
        if config.sort == Sort::Version {
            let x = seq![Component::Normal(vf_name(a))];
            let y = seq![Component::Normal(vf_name(b))];
            lemma_components_order_common(parent, x, y);
            lemma_components_order_common(components(dir), x, y);
            assert(parent + x =~= components((a.path->0)@));
            assert(parent + y =~= components((b.path->0)@));
            assert(components(dir) + x =~= components(entries[i].p_buf@));
            assert(components(dir) + y =~= components(entries[j].p_buf@));
            assert(path_order((a.path->0)@, (b.path->0)@) == path_order(
                entries[i].p_buf@,
                entries[j].p_buf@,
            ));
        }
    }
    assert forall|s: Seq<usize>| #[trigger] arrangement(vk, s) == arrangement(ek, s) by {
        if s.len() == vk.len() && (forall|k: int| 0 <= k < s.len() ==> (#[trigger] s[k])
            < vk.len()) {
            assert(ordered(vk, s) == ordered(ek, s)) by {
                if ordered(vk, s) {
                    assert forall|a: int, b: int| 0 <= a < b < s.len() implies before(
                        ek,
                        #[trigger] s[a] as int,
                        #[trigger] s[b] as int,
                    ) by {
                        assert(before(vk, s[a] as int, s[b] as int));
                    }
                }
                if ordered(ek, s) {
                    assert forall|a: int, b: int| 0 <= a < b < s.len() implies before(
                        vk,
                        #[trigger] s[a] as int,
                        #[trigger] s[b] as int,
                    ) by {
                        assert(before(ek, s[a] as int, s[b] as int));
                    }
                }
            }
        }
    }
    let group = config.group_directories_first && config.sort != Sort::Unsorted;
    if listing_order(vk, vd, config, order) {
        let s = choose|s: Seq<usize>| #[trigger]
            arrangement(vk, s) && order == arranged(s, vd, config.reverse, group);
        assert(arrangement(ek, s));
        assert(order == arranged(s, ed, config.reverse, group));
    }
    if listing_order(ek, ed, config, order) {
        let s = choose|s: Seq<usize>| #[trigger]
            arrangement(ek, s) && order == arranged(s, ed, config.reverse, group);
        assert(order == arranged(s, vd, config.reverse, group));
        assert(arrangement(vk, s) == arrangement(ek, s));
        assert(arrangement(vk, s));
    }
}

} // verus!
