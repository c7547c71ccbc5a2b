use vecls::attrs::{AttrMask, ErrorKind, VfAttrs, ATTR_BLOCKS};
use vecls::config::{Config, Dereference, Files, Format, SizeFormat, Sort, TimeField};
use vecls::entry::{MetaReply, PathData};
use vecls::entry_order::SortFact;
use vecls::error::LsError;
use vecls::listing::{
    collect_directory_entries, dot_entries, dotdot_path, enter_directory, get_block_size,
    list_with_output, operands, subdirectories, write_directory_entries, DotTargets, Operand, ReadEntry, StreamMode,
};
use vecls::meta::{DirEntry, IoFailure, LsDirEntry, LsMeta, StdFileType, StdMetadata, Timestamp};
use vecls::output::{finalize, flush, initialize, list, write_dir_header, write_total, Op, TextOutput};
use vecls::traverse::{Place, Reply, Step};
use vecls::walk::{list_recursive_vf, relative_names, walked_entries, walked_name, Rendering};

const NO_TARGETS: DotTargets = DotTargets { here: None, up: None };
const FACT: SortFact = SortFact { rank: 0, leads_to_dir: false, followed: None };
const DENIED: IoFailure = IoFailure { kind: ErrorKind::PermissionDenied, raw_os_error: Some(13), backend: None };

fn config() -> Config {
    Config {
        format: Format::Columns,
        files: Files::Normal,
        sort: Sort::Name,
        time: TimeField::Modification,
        dereference: Dereference::Never,
        size_format: SizeFormat::Bytes,
        block_size: 1024,
        recursive: false,
        reverse: false,
        directory: false,
        group_directories_first: false,
        alloc_size: false,
        dired: false,
        hyperlink: false,
        context: false,
        locale_collation: false,
    }
}

fn meta(is_dir: bool) -> StdMetadata {
    StdMetadata {
        file_type: StdFileType {
            is_dir,
            is_file: !is_dir,
            is_symlink: false,
            is_block_device: false,
            is_char_device: false,
            is_fifo: false,
            is_socket: false,
        },
        len: 1,
        nlink: 1,
        uid: 0,
        gid: 0,
        rdev: 0,
        ino: 1,
        blocks: 8,
        mode: 0,
        modified: None,
        accessed: None,
        created: None,
        ctime_sec: 0,
        ctime_nsec: 0,
    }
}

fn operand(path: &str, found: Option<StdMetadata>, config: &Config) -> Operand {
    let mut data =
        PathData::new(path.as_bytes().to_vec(), None, None, config, true, false, found);
    match found {
        Some(m) => assert!(data.metadata_reply(MetaReply::Found(m)).is_none()),
        None => {
            let reply = MetaReply::Failed { failure: DENIED, link_target: None };
            assert!(data.metadata_reply(reply).is_some());
        }
    }
    Operand { data, fact: FACT }
}

fn report(name: &[u8], ftype: u32) -> VfAttrs {
    VfAttrs {
        path: Some([b"/x/", name].concat()),
        ftype,
        returned: AttrMask { bits: ATTR_BLOCKS },
        size: 0,
        nlink: 1,
        uid: 0,
        gid: 0,
        rdev: 0,
        fileid: 0,
        blocks: 4,
        mode: 0,
        atime_sec: 0,
        atime_nsec: 0,
        mtime_sec: 0,
        mtime_nsec: 0,
        ctime_sec: 0,
        ctime_nsec: 0,
    }
}

fn place(path: &str) -> Place {
    Place { path: path.as_bytes().to_vec(), must_dereference: false, command_line: false }
}

fn names(entries: &[PathData]) -> Vec<String> {
    entries.iter().map(|e| String::from_utf8(e.display_name().to_vec()).unwrap()).collect()
}

#[test]
fn without_operands_the_current_directory_is_listed() {
    assert_eq!(operands(None), [b".".to_vec()]);
    assert_eq!(operands(Some(vec![b"a".to_vec()])), [b"a".to_vec()]);
}

#[test]
fn operands_are_split_and_sorted() {
    let c = config();
    let locs = vec![
        operand("z", Some(meta(false)), &c),
        operand("d2", Some(meta(true)), &c),
        operand("gone", None, &c),
        operand("a", Some(meta(false)), &c),
        operand("d1", Some(meta(true)), &c),
    ];
    let plan = list_with_output(locs, &c, StreamMode::Streaming);
    assert_eq!(names(&plan.files), ["a", "z"]);
    assert_eq!(plan.mode, StreamMode::Streaming);
    assert_eq!(plan.exit_code, 0);
    let l = plan.listing;
    assert!(matches!(l.step(), Step::Begin));
    let l = l.advance(Reply::Done);
    assert!(matches!(l.step(), Step::Open(p) if p == b"d1"));
    let l = l.advance(Reply::Opened);
    assert!(matches!(l.step(), Step::Heading(p, false) if p.path == b"d1" && p.command_line));
    let l = l.advance(Reply::Done);
    assert!(matches!(l.step(), Step::Contents(p) if p == b"d1"));
    let l = l.advance(Reply::Children(vec![place("d1/sub")]));
    assert!(matches!(l.step(), Step::Open(p) if p == b"d2"));
    let l = l.advance(Reply::Failed(DENIED));
    match l.step() {
        Step::Report(LsError::IOErrorContext(p, f, true)) => {
            assert_eq!((p.as_slice(), f), (&b"d2"[..], DENIED));
        }
        other => panic!("{other:?}"),
    }
    let l = l.advance(Reply::Done);
    assert!(matches!(l.step(), Step::Finish));
    let l = l.advance(Reply::Done);
    assert!(matches!(l.step(), Step::Done));
    assert!(matches!(l.advance(Reply::Done).step(), Step::Done));
}

#[test]
fn directories_as_such_are_files() {
    let c = Config { directory: true, ..config() };
    let plan =
        list_with_output(vec![operand("d", Some(meta(true)), &c)], &c, StreamMode::Batched);
    assert_eq!(names(&plan.files), ["d"]);
    let l = plan.listing.advance(Reply::Done);
    assert!(matches!(l.step(), Step::Finish));
}

#[test]
fn untold_types_set_the_exit_code() {
    let c = config();
    let mut op = operand("x", Some(meta(true)), &c);
    op.data.ft = Some(None);
    let plan = list_with_output(vec![op], &c, StreamMode::Batched);
    assert_eq!(plan.exit_code, 1);
    assert_eq!(names(&plan.files), ["x"]);
}

#[test]
fn a_single_operand_has_no_heading() {
    let c = config();
    let plan =
        list_with_output(vec![operand("d", Some(meta(true)), &c)], &c, StreamMode::Batched);
    let l = plan.listing.advance(Reply::Done).advance(Reply::Opened);
    assert!(matches!(l.step(), Step::Contents(p) if p == b"d"));
}

#[test]
fn recursion_goes_in_display_order_and_never_round() {
    let c = Config { recursive: true, sort: Sort::Time, ..config() };
    let plan =
        list_with_output(vec![operand("r", Some(meta(true)), &c)], &c, StreamMode::Batched);
    let l = plan.listing.advance(Reply::Done);
    // Sorting by time is no matter for a walk.
    assert!(matches!(l.step(), Step::Open(p) if p == b"r"));
    let l = l.advance(Reply::Opened);
    assert!(matches!(l.step(), Step::Heading(_, true)));
    let l = l.advance(Reply::Done);
    assert!(matches!(l.step(), Step::Identify(p, false) if p == b"r"));
    let l = l.advance(Reply::Id(1, 1));
    assert!(matches!(l.step(), Step::Contents(p) if p == b"r"));
    let l = l.advance(Reply::Children(vec![place("r/a"), place("r/b"), place("r/c"), place("r/d")]));
    // The children are looked at from the last to the first.
    assert!(matches!(l.step(), Step::Open(p) if p == b"r/d"));
    let l = l.advance(Reply::Opened);
    assert!(matches!(l.step(), Step::Identify(p, false) if p == b"r/d"));
    let l = l.advance(Reply::Id(1, 1));
    match l.step() {
        Step::Report(LsError::AlreadyListedError(p)) => assert_eq!(p, b"r/d"),
        other => panic!("{other:?}"),
    }
    let l = l.advance(Reply::Done);
    assert!(matches!(l.step(), Step::Open(p) if p == b"r/c"));
    let l = l.advance(Reply::Failed(DENIED));
    assert!(matches!(l.step(), Step::Report(LsError::IOErrorContext(p, _, false)) if p == b"r/c"));
    let l = l.advance(Reply::Done);
    let l = l.advance(Reply::Opened).advance(Reply::Id(1, 3));
    let l = l.advance(Reply::Opened).advance(Reply::Id(1, 2));
    // They are listed from the first to the last.
    assert!(matches!(l.step(), Step::Heading(p, false) if p.path == b"r/a"));
    let l = l.advance(Reply::Done);
    assert!(matches!(l.step(), Step::Open(p) if p == b"r/a"));
    let l = l.advance(Reply::Opened);
    assert!(matches!(l.step(), Step::Contents(p) if p == b"r/a"));
    let l = l.advance(Reply::Children(vec![place("r/a/x")]));
    let l = l.advance(Reply::Opened).advance(Reply::Id(1, 4));
    assert!(matches!(l.step(), Step::Heading(p, false) if p.path == b"r/a/x"));
    let l = l.advance(Reply::Done).advance(Reply::Failed(DENIED));
    assert!(matches!(l.step(), Step::Report(LsError::IOErrorContext(p, _, false)) if p == b"r/a/x"));
    let l = l.advance(Reply::Done);
    assert!(matches!(l.step(), Step::Heading(p, false) if p.path == b"r/b"));
    let l = l.advance(Reply::Done).advance(Reply::Opened).advance(Reply::Children(Vec::new()));
    assert!(matches!(l.step(), Step::Finish));
}

#[test]
fn trees_are_walked_whole_where_that_works() {
    let c = Config { recursive: true, ..config() };
    let locs = vec![operand("a", Some(meta(true)), &c), operand("b", Some(meta(true)), &c)];
    let l = list_with_output(locs, &c, StreamMode::Batched).listing.advance(Reply::Done);
    assert!(matches!(l.step(), Step::Walk(p, 0, true) if p.path == b"a"));
    let l = l.advance(Reply::Walked(true));
    assert!(matches!(l.step(), Step::Walk(p, 1, true) if p.path == b"b"));
    let l = l.advance(Reply::Walked(false));
    assert!(matches!(l.step(), Step::Open(p) if p == b"b"));
    // What was not asked changes nothing.
    let l = l.advance(Reply::Id(1, 1));
    assert!(matches!(l.step(), Step::Open(p) if p == b"b"));
    let l = l.advance(Reply::Opened);
    assert!(matches!(l.step(), Step::Heading(_, false)));
}

#[test]
fn failed_walks_and_identifications_end_a_listing() {
    let aborted = |step: Step| matches!(step, Step::Abort(f) if f == DENIED);
    let c = Config { recursive: true, ..config() };
    let walking = || {
        let locs = vec![operand("a", Some(meta(true)), &c)];
        list_with_output(locs, &c, StreamMode::Batched).listing.advance(Reply::Done)
    };
    let l = walking().advance(Reply::Failed(DENIED));
    assert!(aborted(l.step()));
    assert!(aborted(l.advance(Reply::Done).step()));
    let opened = || walking().advance(Reply::Walked(false)).advance(Reply::Opened);
    let l = opened().advance(Reply::Done);
    assert!(matches!(l.step(), Step::Identify(p, false) if p == b"a"));
    assert!(aborted(l.advance(Reply::Failed(DENIED)).step()));
    let l = opened()
        .advance(Reply::Done)
        .advance(Reply::Id(1, 1))
        .advance(Reply::Children(vec![place("a/b")]))
        .advance(Reply::Opened);
    assert!(matches!(l.step(), Step::Identify(p, false) if p == b"a/b"));
    assert!(aborted(l.advance(Reply::Failed(DENIED)).step()));
}

#[test]
fn dot_entries_are_listed_with_all() {
    let all = Config { files: Files::All, ..config() };
    let entries = dot_entries(b"d/", NO_TARGETS, &all);
    assert_eq!(names(&entries), [".", ".."]);
    assert_eq!((entries[0].path(), entries[1].path()), (&b"d/"[..], &b"d/.."[..]));
    assert!(entries.iter().all(|e| e.is_dot_dir));
    let almost = Config { files: Files::AlmostAll, ..config() };
    assert!(dot_entries(b"d", NO_TARGETS, &almost).is_empty());
    assert_eq!(dotdot_path(b"d"), b"d/..");
}

#[test]
fn displayed_entries_are_collected() {
    let c = Config { files: Files::All, ..config() };
    let std = |name: &str, displayed| {
        Ok(ReadEntry {
            entry: LsDirEntry::Std(DirEntry {
                path: format!("d/{name}").into_bytes(),
                name: name.as_bytes().to_vec(),
                file_type: Some(meta(true).file_type),
            }),
            displayed,
            target: None,
        })
    };
    let vf = Ok(ReadEntry {
        entry: LsDirEntry::Vf { path: b"d/v".to_vec(), name: b"v".to_vec(), attrs: report(b"v", 2) },
        displayed: true,
        target: None,
    });
    let read = vec![std("x", true), std(".h", false), Err(DENIED), vf];
    let (entries, failures) = collect_directory_entries(b"d", NO_TARGETS, read, &c);
    assert_eq!(names(&entries), [".", "..", "x", "v"]);
    assert_eq!(failures.len(), 1);
    assert!(matches!(failures[0], LsError::IOError(f) if f == DENIED));
    // The dots are no subdirectories.
    let dirs = subdirectories(&entries);
    let paths: Vec<&[u8]> = dirs.iter().map(|p| p.path.as_slice()).collect();
    assert_eq!(paths, [&b"d/x"[..], &b"d/v"[..]]);
    // Once entered, the directory is in order, and so are those below it.
    let facts = vec![FACT; 4];
    let (sorted, dirs) = enter_directory(entries, &facts, &c);
    assert_eq!(names(&sorted), [".", "..", "v", "x"]);
    let paths: Vec<&[u8]> = dirs.iter().map(|p| p.path.as_slice()).collect();
    assert_eq!(paths, [&b"d/v"[..], &b"d/x"[..]]);
}

#[test]
fn sizes_are_told_in_units() {
    let md = LsMeta::Std(meta(false));
    assert_eq!(get_block_size(&md, &config()), 4);
    assert_eq!(get_block_size(&md, &Config { block_size: 3000, ..config() }), 1);
    let raw = Config { size_format: SizeFormat::Binary, ..config() };
    assert_eq!(get_block_size(&md, &raw), 4096);
    let raw = Config { size_format: SizeFormat::Decimal, ..config() };
    assert_eq!(get_block_size(&md, &raw), 4096);
    assert_eq!(get_block_size(&LsMeta::Vf(report(b"dev", 6)), &config()), 0);
    assert_eq!(get_block_size(&LsMeta::Vf(report(b"dev", 7)), &config()), 0);
    assert_eq!(get_block_size(&LsMeta::Vf(report(b"f", 1)), &config()), 2);
}

#[test]
fn totals_are_written_where_sizes_show() {
    let c = config();
    let entries = vec![
        operand("a", Some(meta(false)), &c).data,
        operand("gone", None, &c).data,
        operand("b", Some(meta(false)), &c).data,
    ];
    let out = write_directory_entries(&entries, &c, StreamMode::Batched);
    assert_eq!((out.total, out.one_by_one), (None, false));
    let long = Config { format: Format::Long, ..c };
    let out = write_directory_entries(&entries, &long, StreamMode::Streaming);
    assert_eq!((out.total, out.one_by_one), (Some(8), true));
    let sized = Config { alloc_size: true, ..c };
    assert_eq!(write_directory_entries(&entries, &sized, StreamMode::Batched).total, Some(8));
}

#[test]
fn names_below_a_root() {
    let text = |v: Vec<Vec<u8>>| -> Vec<String> {
        v.into_iter().map(|n| String::from_utf8(n).unwrap()).collect()
    };
    assert_eq!(text(relative_names(b"/m/r", b"/m/r/a/.b")), ["a", ".b"]);
    assert!(relative_names(b"/m/r", b"/m/r/").is_empty());
    assert_eq!(text(relative_names(b"/x", b"/m/../r")), ["/", "m", "..", "r"]);
}

#[test]
fn hidden_subtrees_are_passed_over() {
    // r, r/.h, r/.h/x, r/.h/x/y, r/a, r/a/.k, r/b
    let shown = vec![
        vec![],
        vec![false],
        vec![false, true],
        vec![false, true, true],
        vec![true],
        vec![true, false],
        vec![true],
    ];
    let r = |index, is_first| Rendering { index, is_first };
    assert_eq!(list_recursive_vf(&shown, 0, true), [r(0, true), r(4, false), r(6, false)]);
    assert_eq!(list_recursive_vf(&shown, 1, true)[0], r(0, false));
    assert_eq!(list_recursive_vf(&shown, 0, false)[0], r(0, false));
}

#[test]
fn walked_directories_hold_displayed_entries() {
    let reports = vec![report(b"a", 1), report(b".h", 1), report(b"b\xff", 2)];
    assert_eq!(walked_name(&reports[0]), b"a");
    assert_eq!(walked_name(&reports[2]), "b\u{fffd}".as_bytes());
    let displayed = vec![true, false, true];
    let entries = walked_entries(b"/m/d", NO_TARGETS, &reports, &displayed, &config());
    assert_eq!(names(&entries), ["a", "b\u{fffd}"]);
    assert_eq!(entries[0].path(), b"/m/d/a");
    let all = Config { files: Files::All, ..config() };
    assert_eq!(names(&walked_entries(b"/m", NO_TARGETS, &reports, &displayed, &all)).len(), 4);
}

#[test]
fn headings_are_set_apart_by_blank_lines() {
    let plain = config();
    let dired = Config { dired: true, ..plain };
    assert_eq!(write_dir_header(3, &plain, true), [Op::DirName, Op::Newline]);
    assert_eq!(write_dir_header(3, &plain, false), [Op::Newline, Op::DirName, Op::Newline]);
    assert_eq!(
        write_dir_header(3, &dired, true),
        [
            Op::Indent,
            Op::DirName,
            Op::Newline,
            Op::NoteSubdirectory(3),
            Op::CountDirName(3),
        ]
    );
    assert_eq!(
        write_dir_header(3, &dired, false),
        [
            Op::Newline,
            Op::CountBlankLine,
            Op::Indent,
            Op::NoteSubdirectory(3),
            Op::CountDirName(3),
            Op::DirName,
            Op::Newline,
        ]
    );
}

#[test]
fn totals_and_ends_of_the_output() {
    let plain = config();
    let dired = Config { dired: true, ..plain };
    assert_eq!(write_total(7, &plain), [Op::Total, Op::LineEnding]);
    assert_eq!(
        write_total(7, &dired),
        [Op::Indent, Op::Total, Op::LineEnding, Op::CountTotal(8)]
    );
    assert_eq!(finalize(&dired), [Op::Positions]);
    assert!(finalize(&plain).is_empty());
    assert!(finalize(&Config { hyperlink: true, ..dired }).is_empty());
    assert_eq!(initialize(true), [Op::ResetStyle]);
    assert!(initialize(false).is_empty());
    assert!(flush(Ok(())).is_ok());
    assert!(matches!(flush(Err(DENIED)), Err(LsError::WriteError(f)) if f == DENIED));
}

#[test]
fn text_output_knows_what_is_recent() {
    let now = Timestamp { secs: 2_000_000_000, nanos: 5 };
    let later = Timestamp { secs: 2_000_000_000, nanos: 9 };
    let o = TextOutput::new(&Config { format: Format::Long, ..config() }, now, later);
    assert_eq!(o.recent_from, Timestamp { secs: 1_984_221_524, nanos: 5 });
    assert_eq!(o.recent_to, later);
    assert_eq!(o.line_buffer, 128);
    let c = config();
    let (o, plan) = list(vec![operand("f", Some(meta(false)), &c)], &c, now, later);
    assert_eq!(o.line_buffer, 0);
    assert_eq!(names(&plan.files), ["f"]);
    assert_eq!(plan.mode, StreamMode::Batched);
}
