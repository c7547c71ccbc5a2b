use vecls::attrs::{AttrMask, VfAttrs, ATTR_MTIME, ATTR_SIZE};
use vecls::config::{Config, Dereference, Files, Format, SizeFormat, Sort, TimeField};
use vecls::entry::{MetaReply, PathData};
use vecls::entry_order::{name_of, sort_entries, sort_vf_entries, SortFact};
use vecls::meta::{StdFileType, StdMetadata, Timestamp};
use vecls::order::Order;
use vecls::path::join;
use vecls::rank::ranks as rank_names;
use vecls::sort::{compare_keys, rearrange, reversed, sort_keys, SortKey};

fn config(sort: Sort) -> Config {
    Config {
        format: Format::Columns,
        files: Files::Normal,
        sort,
        time: TimeField::Modification,
        dereference: Dereference::Never,
        size_format: SizeFormat::Bytes,
        block_size: 1024,
        recursive: false,
        reverse: false,
        directory: false,
        group_directories_first: false,
        alloc_size: false,
        dired: false,
        hyperlink: false,
        context: false,
        locale_collation: false,
    }
}

fn report(name: &str, ftype: u32, size: u64, mtime: i64) -> VfAttrs {
    VfAttrs {
        path: Some(join(b"/d", name.as_bytes())),
        ftype,
        returned: AttrMask { bits: ATTR_SIZE | ATTR_MTIME },
        size,
        nlink: 1,
        uid: 0,
        gid: 0,
        rdev: 0,
        fileid: 0,
        blocks: 0,
        mode: 0,
        atime_sec: 0,
        atime_nsec: 0,
        mtime_sec: mtime,
        mtime_nsec: 0,
        ctime_sec: 0,
        ctime_nsec: 0,
    }
}

fn sample() -> Vec<VfAttrs> {
    vec![
        report("b.txt", 1, 5, 30),
        report("a.rs", 1, 5, 10),
        report("Z", 2, 0, 20),
        report("long-name.a", 1, 100, 20),
        report("a", 2, 1, 40),
        report("10", 1, 7, 5),
        report("9", 1, 7, 6),
    ]
}

// Ranks for version order: 9 before 10, the rest by name.
fn ranks(entries: &[VfAttrs]) -> Vec<u64> {
    let order = ["9", "10", "Z", "a", "a.rs", "b.txt", "long-name.a"];
    entries
        .iter()
        .map(|e| {
            let name = name_of(e);
            order.iter().position(|n| n.as_bytes() == name).unwrap() as u64
        })
        .collect()
}

// What following a path finds.
fn followed(is_dir: bool, len: u64, mtime: i64) -> StdMetadata {
    StdMetadata {
        file_type: StdFileType {
            is_dir,
            is_file: !is_dir,
            is_symlink: false,
            is_block_device: false,
            is_char_device: false,
            is_fifo: false,
            is_socket: false,
        },
        len,
        nlink: 1,
        uid: 0,
        gid: 0,
        rdev: 0,
        ino: 0,
        blocks: 0,
        mode: 0,
        modified: Some(Timestamp { secs: mtime, nanos: 0 }),
        accessed: None,
        created: None,
        ctime_sec: 0,
        ctime_nsec: 0,
    }
}

fn facts(reports: &[VfAttrs]) -> Vec<SortFact> {
    let ranks = ranks(reports);
    reports
        .iter()
        .zip(ranks)
        .map(|(r, rank)| SortFact { rank, leads_to_dir: r.ftype == 2, followed: None })
        .collect()
}

fn report_names(mut reports: Vec<VfAttrs>, facts: &Vec<SortFact>, config: &Config) -> Vec<String> {
    sort_vf_entries(&mut reports, facts, config);
    reports.iter().map(|e| String::from_utf8(name_of(e)).unwrap()).collect()
}

// The same files as entries, their metadata read.
fn entry_names(reports: Vec<VfAttrs>, facts: &Vec<SortFact>, config: &Config) -> Vec<String> {
    let mut entries: Vec<PathData> = reports
        .into_iter()
        .zip(facts)
        .map(|(r, fact)| {
            let name = name_of(&r);
            let mut e = PathData::from_vf(join(b"some/dir", &name), name, r, config);
            if let Some(m) = fact.followed {
                assert!(e.metadata_reply(MetaReply::Found(m)).is_none());
            }
            e
        })
        .collect();
    sort_entries(&mut entries, facts, config);
    entries.iter().map(|e| String::from_utf8(e.file_name().to_vec()).unwrap()).collect()
}

fn sorted_reports(config: &Config) -> Vec<String> {
    let facts = facts(&sample());
    report_names(sample(), &facts, config)
}

fn sorted_entries(config: &Config) -> Vec<String> {
    let facts = facts(&sample());
    entry_names(sample(), &facts, config)
}

#[test]
fn entries_are_sorted_by_name() {
    let expected = ["10", "9", "Z", "a", "a.rs", "b.txt", "long-name.a"];
    assert_eq!(sorted_entries(&config(Sort::Name)), expected);
}

#[test]
fn entries_are_sorted_by_rank_where_the_locale_rules() {
    let c = Config { locale_collation: true, ..config(Sort::Name) };
    let expected = ["9", "10", "Z", "a", "a.rs", "b.txt", "long-name.a"];
    assert_eq!(sorted_entries(&c), expected);
    assert_eq!(sorted_entries(&config(Sort::Version)), expected);
}

#[test]
fn entries_are_sorted_by_size_largest_first() {
    let expected = ["long-name.a", "10", "9", "a.rs", "b.txt", "a", "Z"];
    assert_eq!(sorted_entries(&config(Sort::Size)), expected);
}

#[test]
fn entries_are_sorted_by_time_newest_first() {
    let expected = ["a", "b.txt", "Z", "long-name.a", "a.rs", "9", "10"];
    assert_eq!(sorted_entries(&config(Sort::Time)), expected);
}

#[test]
fn entries_are_sorted_by_extension() {
    let expected = ["10", "9", "Z", "a", "long-name.a", "a.rs", "b.txt"];
    assert_eq!(sorted_entries(&config(Sort::Extension)), expected);
}

#[test]
fn entries_are_sorted_by_width() {
    let expected = ["9", "Z", "a", "10", "a.rs", "b.txt", "long-name.a"];
    assert_eq!(sorted_entries(&config(Sort::Width)), expected);
}

#[test]
fn unsorted_entries_keep_their_places() {
    let expected = ["b.txt", "a.rs", "Z", "long-name.a", "a", "10", "9"];
    assert_eq!(sorted_entries(&config(Sort::Unsorted)), expected);
    let grouped = Config { group_directories_first: true, ..config(Sort::Unsorted) };
    assert_eq!(sorted_entries(&grouped), expected);
    let c = Config { reverse: true, ..config(Sort::Unsorted) };
    let mut turned = expected;
    turned.reverse();
    assert_eq!(sorted_entries(&c), turned);
}

#[test]
fn directories_come_first_in_either_direction() {
    let c = Config { group_directories_first: true, ..config(Sort::Name) };
    assert_eq!(sorted_entries(&c), ["Z", "a", "10", "9", "a.rs", "b.txt", "long-name.a"]);
    let c = Config { reverse: true, ..c };
    assert_eq!(sorted_entries(&c), ["a", "Z", "long-name.a", "b.txt", "a.rs", "9", "10"]);
}

#[test]
fn both_sources_list_alike() {
    let sorts = [
        Sort::Unsorted,
        Sort::Name,
        Sort::Size,
        Sort::Time,
        Sort::Version,
        Sort::Extension,
        Sort::Width,
    ];
    for sort in sorts {
        for reverse in [false, true] {
            for group_directories_first in [false, true] {
                let c = Config { reverse, group_directories_first, ..config(sort) };
                assert_eq!(sorted_entries(&c), sorted_reports(&c), "{c:?}");
            }
        }
    }
}

#[test]
fn attributes_that_were_not_returned_do_not_count() {
    // The size of b was not returned, and neither was its time.
    let reports = || {
        let mut b = report("b", 1, 100, 50);
        b.returned = AttrMask { bits: 0 };
        vec![report("a", 1, 1, 10), b, report("c", 1, 5, -10)]
    };
    let facts = vec![SortFact { rank: 0, leads_to_dir: false, followed: None }; 3];
    for (sort, expected) in [(Sort::Size, ["c", "a", "b"]), (Sort::Time, ["a", "b", "c"])] {
        assert_eq!(report_names(reports(), &facts, &config(sort)), expected);
        assert_eq!(entry_names(reports(), &facts, &config(sort)), expected);
    }
}

#[test]
fn links_to_directories_are_grouped_with_them() {
    let reports = || vec![report("a", 1, 0, 0), report("l", 5, 0, 0), report("d", 2, 0, 0)];
    let fact = |leads_to_dir| SortFact { rank: 0, leads_to_dir, followed: None };
    let facts = vec![fact(false), fact(true), fact(true)];
    let c = Config { group_directories_first: true, ..config(Sort::Name) };
    assert_eq!(report_names(reports(), &facts, &c), ["d", "l", "a"]);
    assert_eq!(entry_names(reports(), &facts, &c), ["d", "l", "a"]);
}

#[test]
fn followed_links_are_sorted_by_what_they_lead_to() {
    let reports = || vec![report("a", 1, 9, 9), report("l", 5, 1, 1), report("b", 1, 5, 5)];
    let fact = |m| SortFact { rank: 0, leads_to_dir: false, followed: Some(m) };
    let facts = vec![
        fact(followed(false, 9, 9)),
        fact(followed(true, 70, 70)),
        fact(followed(false, 5, 5)),
    ];
    for sort in [Sort::Size, Sort::Time] {
        let c = Config { dereference: Dereference::All, ..config(sort) };
        assert_eq!(report_names(reports(), &facts, &c), ["l", "a", "b"]);
        assert_eq!(entry_names(reports(), &facts, &c), ["l", "a", "b"]);
    }
    let c = Config {
        dereference: Dereference::All,
        group_directories_first: true,
        ..config(Sort::Name)
    };
    assert_eq!(report_names(reports(), &facts, &c), ["l", "a", "b"]);
    assert_eq!(entry_names(reports(), &facts, &c), ["l", "a", "b"]);
}

#[test]
fn reports_without_a_path_have_no_name() {
    let mut nameless = report("x", 1, 0, 0);
    nameless.path = None;
    assert_eq!(name_of(&nameless), b"");
    let mut entries = vec![report("x", 1, 0, 0), nameless];
    let fact = SortFact { rank: 0, leads_to_dir: false, followed: None };
    sort_vf_entries(&mut entries, &vec![fact, fact], &config(Sort::Extension));
    assert!(entries[0].path.is_none());
}

#[test]
fn equal_keys_keep_their_places() {
    let keys = vec![
        SortKey::Rank(2),
        SortKey::Rank(1),
        SortKey::Rank(2),
        SortKey::Rank(1),
        SortKey::Rank(0),
    ];
    assert_eq!(sort_keys(&keys), [4, 1, 3, 0, 2]);
    assert!(sort_keys(&Vec::new()).is_empty());
}

#[test]
fn keys_compare() {
    assert_eq!(compare_keys(&SortKey::Time(5), &SortKey::Time(3)), Order::Less);
    assert_eq!(compare_keys(&SortKey::Time(-5), &SortKey::Time(3)), Order::Greater);
    assert_eq!(compare_keys(&SortKey::Time(3), &SortKey::Time(3)), Order::Equal);
    let version = |rank, path: &str| SortKey::Version(rank, Some(path.as_bytes().to_vec()));
    assert_eq!(compare_keys(&version(1, "/d/b"), &version(1, "/d//a")), Order::Greater);
    assert_eq!(compare_keys(&version(0, "/d/b"), &version(1, "/d/a")), Order::Less);
    assert_eq!(compare_keys(&SortKey::Version(1, None), &version(1, "")), Order::Less);
    assert_eq!(compare_keys(&SortKey::Same, &SortKey::Same), Order::Equal);
}

#[test]
fn items_are_put_in_order() {
    assert_eq!(rearrange(vec!["a", "b", "c"], &vec![2, 0, 1]), ["c", "a", "b"]);
    assert_eq!(reversed(vec![1, 2, 3]), [3, 2, 1]);
}

#[test]
fn ranks_tell_how_names_compare() {
    // Compared without regard to case.
    let names = ["b", "A", "c", "B", "a", "C", "ab", "", "b"];
    let compare = |i: usize, j: usize| {
        let (a, b) = (names[i].to_lowercase(), names[j].to_lowercase());
        if a < b {
            Order::Less
        } else if a == b {
            Order::Equal
        } else {
            Order::Greater
        }
    };
    let ranks = rank_names(names.len(), compare);
    assert_eq!(ranks, [3, 1, 4, 3, 1, 4, 2, 0, 3]);
    assert!(rank_names(0, |_, _| Order::Less).is_empty());
    assert_eq!(rank_names(1, |_, _| Order::Less), [0]);
    // Outcomes that contradict each other give ranks all the same.
    assert_eq!(rank_names(3, |_, _| Order::Greater).len(), 3);
}
