use vecls::attrs::{ErrorKind, VfError, VfFault};
use vecls::batch::{
    batch_bytes, keep_contents, prepare_batch, prepares, server_copy_enabled, Batch, BatchSource,
    ReadAhead, Reply as BatchReply, Step as BatchStep, DEFAULT_BATCH_BYTES, MAX_BATCH_FILES,
    READ_ALL_FILES_PER_BATCH,
};
use vecls::copy::{
    connected as after_try, existing_ancestor, make_context, Ancestor, Backend, Connected,
    Connecting, Context, COPYING_MINOR,
};
use vecls::copy_file::{
    try_copy, CopyFault, Copying, Method, Reply, Step, CREATE_MODE, READ_ONLY, READ_SIZE,
};
use vecls::meta::IoFailure;
use vecls::mount::{ImplChoice, Mount, VfPathError};
use vecls::pathmap::PathMap;
use vecls::server_copy::{
    prepare_server_copy_batch, temp_name, CopyError, CopySource, CopyTarget, PreparedCopy,
    MAX_SERVER_COPY_BATCH_FILES,
};
use vecls::text::{parse_u64, push_decimal};

const GONE: IoFailure = IoFailure { kind: ErrorKind::NotFound, raw_os_error: Some(2), backend: None };
const LOST: VfError = VfError { fault: VfFault::Transport, index: None };

fn mount(server: &str, point: &str) -> Mount {
    Mount {
        server: server.to_string(),
        export: b"/export".to_vec(),
        point: point.as_bytes().to_vec(),
    }
}

fn v(s: &str) -> Vec<u8> {
    s.as_bytes().to_vec()
}

#[test]
fn settings_are_read_from_text() {
    assert!(server_copy_enabled(None));
    assert!(server_copy_enabled(Some("1")));
    assert!(server_copy_enabled(Some("")));
    assert!(!server_copy_enabled(Some("0")));
    assert_eq!(DEFAULT_BATCH_BYTES, 64 * 1024 * 1024);
    assert_eq!(batch_bytes(None), DEFAULT_BATCH_BYTES);
    assert_eq!(batch_bytes(Some("many")), DEFAULT_BATCH_BYTES);
    assert_eq!(batch_bytes(Some("0")), 0);
    assert_eq!(batch_bytes(Some("4096")), 4096);
    assert_eq!(READ_SIZE, 1024 * 1024);
}

#[test]
fn numbers_are_parsed_as_std_does() {
    let texts = [
        "", "0", "7", "+7", "-7", "++7", "+", "007", "18446744073709551615", "18446744073709551616",
        "99999999999999999999", "1 ", " 1", "1_0", "0x10", "12a", "\u{661}",
    ];
    for t in texts {
        assert_eq!(parse_u64(t), t.parse::<u64>().ok(), "{t:?}");
    }
}

#[test]
fn numbers_are_written_as_std_does() {
    for n in [0u128, 9, 10, 123, 1_000_000, u64::MAX as u128, u128::MAX] {
        let mut out = Vec::new();
        push_decimal(&mut out, n);
        assert_eq!(out, n.to_string().into_bytes());
    }
}

#[test]
fn nearest_existing_ancestor_is_searched_upwards() {
    assert!(matches!(existing_ancestor(b"/a/b/c", &vec![]), Ancestor::Unknown(p) if p == b"/a/b/c"));
    assert!(matches!(existing_ancestor(b"/a/b/c", &vec![false]), Ancestor::Unknown(p) if p == b"/a/b"));
    assert!(matches!(existing_ancestor(b"/a/b/c", &vec![false, true]), Ancestor::Known(p) if p == b"/a/b"));
    assert!(matches!(existing_ancestor(b"/a", &vec![false, false]), Ancestor::Known(p) if p == b"/"));
    assert!(matches!(existing_ancestor(b"x", &vec![false]), Ancestor::Unknown(p) if p.is_empty()));
    assert!(matches!(existing_ancestor(b"x", &vec![false, false]), Ancestor::Known(p) if p.is_empty()));
}

fn source(path: &str, len: Option<u64>, point: Option<&str>) -> BatchSource {
    BatchSource { path: v(path), file_len: len, mount: point.map(|p| mount("s", p)) }
}

#[test]
fn sources_are_read_ahead_within_bounds() {
    let sources = vec![
        source("/m/a", Some(40), Some("/m")),
        source("/m//a", Some(1), Some("/m")),
        source("/m/dir", None, Some("/m")),
        source("/m/big", Some(61), Some("/m")),
        source("/home/x", Some(1), None),
        source("/n/y", Some(1), Some("/n")),
        source("/m/b", Some(50), Some("/m/")),
        source("/m/c", Some(10), Some("/m")),
        source("/m/d", Some(0), Some("/m")),
    ];
    let b = prepare_batch(Some(ImplChoice::Nfs), false, 100, &sources).unwrap();
    // The last is left out: the bytes are used up before it.
    assert_eq!(b.selected, [0, 6, 7]);
    assert_eq!(b.total, 100);
    assert_eq!(b.mount.point, b"/m");
    assert!(prepare_batch(None, false, 100, &sources).is_none());
    assert!(prepare_batch(Some(ImplChoice::Nfs), true, 100, &sources).is_none());
    assert!(prepare_batch(Some(ImplChoice::Nfs), false, 0, &sources).is_none());
    assert!(prepare_batch(Some(ImplChoice::Nfs), false, 40, &sources).is_none());
}

#[test]
fn no_more_files_are_read_ahead_than_allowed() {
    let sources: Vec<BatchSource> = (0..MAX_BATCH_FILES / 2)
        .map(|i| source(&format!("/m/{i}"), Some(1), Some("/m")))
        .collect();
    let b = prepare_batch(Some(ImplChoice::Dummy), false, 1000, &sources).unwrap();
    assert_eq!((b.selected.len(), b.total), (1000, 1000));
    let b = prepare_batch(Some(ImplChoice::Dummy), false, u64::MAX, &sources).unwrap();
    assert_eq!((b.selected.len(), b.total), (MAX_BATCH_FILES / 2, MAX_BATCH_FILES as u64 / 2));
    assert!(prepares(Some(ImplChoice::Dummy), 2));
    assert!(!prepares(Some(ImplChoice::Dummy), 1));
    assert!(!prepares(None, 2));
}

fn read_ahead(count: usize) -> ReadAhead {
    let sources: Vec<BatchSource> =
        (0..count).map(|i| source(&format!("/m/{i}"), Some(1), Some("/m"))).collect();
    let batch = Batch { mount: mount("s", "/m"), selected: (0..count).collect(), total: count as u64 };
    ReadAhead::start(batch, &sources)
}

// Answers until files are to be read, and gives their names.
fn locate(mut r: ReadAhead, kept: &mut PathMap<Vec<u8>>) -> (ReadAhead, Vec<Vec<u8>>) {
    loop {
        let reply = match r.step() {
            BatchStep::Connect(m) => BatchReply::Connected(m),
            BatchStep::Canonicalize(p) => BatchReply::Canonical(p),
            BatchStep::Read(names) => return (r, names),
            BatchStep::Done(all) => panic!("done: {all}"),
        };
        r = r.advance(reply, kept);
    }
}

#[test]
fn contents_are_requested_in_small_batches() {
    assert_eq!(READ_ALL_FILES_PER_BATCH, 8);
    let mut kept: PathMap<Vec<u8>> = PathMap::new();
    let mut r = read_ahead(17);
    for (from, to) in [(0, 8), (8, 16), (16, 17)] {
        let (located, names) = locate(r, &mut kept);
        let expected: Vec<Vec<u8>> = (from..to).map(|i| v(&format!("/export/{i}"))).collect();
        assert_eq!(names, expected);
        let contents = (from..to).map(|i| v(&i.to_string())).collect();
        r = located.advance(BatchReply::Contents(contents), &mut kept);
    }
    assert!(matches!(r.step(), BatchStep::Done(true)));
    for i in 0..17 {
        assert_eq!(kept.remove(format!("/m/{i}").as_bytes()), Some(v(&i.to_string())));
    }
    // What is done stays done.
    assert!(matches!(r.advance(BatchReply::Failed, &mut kept).step(), BatchStep::Done(true)));
}

#[test]
fn failures_end_reading_ahead_and_keep_what_was_read() {
    let mut kept: PathMap<Vec<u8>> = PathMap::new();
    let unreached = read_ahead(2).advance(BatchReply::Failed, &mut kept);
    assert!(matches!(unreached.step(), BatchStep::Done(false)));
    let read_some = |kept: &mut PathMap<Vec<u8>>| {
        let (r, _) = locate(read_ahead(12), kept);
        r.advance(BatchReply::Contents((0..8).map(|i| v(&i.to_string())).collect()), kept)
    };
    let endings = [
        BatchReply::Failed,
        // A file that lies on no part of the mount.
        BatchReply::Canonical(v("/home/x")),
    ];
    for ending in endings {
        let mut kept: PathMap<Vec<u8>> = PathMap::new();
        let r = read_some(&mut kept).advance(ending, &mut kept);
        assert!(matches!(r.step(), BatchStep::Done(false)));
        assert_eq!(kept.remove(b"/m/7"), Some(v("7")));
        assert_eq!(kept.remove(b"/m/8"), None);
    }
    let mut kept: PathMap<Vec<u8>> = PathMap::new();
    let r = read_some(&mut kept);
    let (r, names) = locate(r, &mut kept);
    assert_eq!(names.len(), 4);
    let r = r.advance(BatchReply::Failed, &mut kept);
    assert!(matches!(r.step(), BatchStep::Done(false)));
    let r = r.advance(BatchReply::Contents(vec![v("late")]), &mut kept);
    assert!(matches!(r.step(), BatchStep::Done(false)));
    assert_eq!(kept.into_values().len(), 8);
}

#[test]
fn contents_are_kept_by_path() {
    let mut kept: PathMap<Vec<u8>> = PathMap::new();
    let paths = vec![v("a/b"), v("c")];
    keep_contents(&mut kept, &paths, vec![v("1"), v("2"), v("3")]);
    assert_eq!(kept.remove(b"a//b"), Some(v("1")));
    assert_eq!(kept.remove(b"a/b"), None);
    keep_contents(&mut kept, &paths, vec![v("4")]);
    assert_eq!(kept.remove(b"a/b"), Some(v("4")));
    assert_eq!(kept.remove(b"c"), Some(v("2")));
    kept.insert(v("x"), v("5"));
    kept.insert(v("x/"), v("6"));
    assert_eq!(kept.into_values(), [v("6")]);
}

#[test]
fn paths_are_found_among_many() {
    let mut kept: PathMap<usize> = PathMap::new();
    let order = [7, 3, 9, 0, 5, 1, 8, 2, 6, 4];
    for i in order {
        assert!(!kept.contains(format!("d/{i}").as_bytes()));
        kept.insert(v(&format!("d/{i}")), i);
    }
    for i in 0..10 {
        assert_eq!(kept.get(format!("d//{i}/").as_bytes()), Some(&i));
    }
    assert_eq!(kept.get(b"d"), None);
    assert_eq!(kept.get(b"d/10"), None);
    assert_eq!(kept.remove(b"d/5"), Some(5));
    assert!(!kept.contains(b"d/5"));
    // One value for each path, though some are equal.
    kept.insert(v("e"), 9);
    let mut values = kept.into_values();
    values.sort();
    assert_eq!(values, [0, 1, 2, 3, 4, 6, 7, 8, 9, 9]);
}

fn copy_source(path: &str, server: &str) -> CopySource {
    CopySource {
        path: v(path),
        is_file: true,
        mount: Some(mount(server, "/m")),
        canonical: Ok(v(path)),
        dest_exists: false,
    }
}

fn target() -> CopyTarget {
    CopyTarget {
        path: v("/m/t"),
        is_dir: true,
        mount: Some(mount("s", "/m")),
        canonical: Ok(v("/m/t")),
    }
}

#[test]
fn temporary_names_tell_process_run_and_place() {
    assert_eq!(temp_name(42, 1_700_000_000_000_000_000, 3), v(".vfsi-cp-42-1700000000000000000-3"));
}

#[test]
fn server_copies_are_planned_for_all_sources() {
    let sources = vec![copy_source("/m/a/x", "s"), copy_source("/m/b/y", "s")];
    let plan = prepare_server_copy_batch(true, &sources, &target(), 7, 8).unwrap().unwrap();
    assert_eq!(
        plan.pairs,
        [
            (v("/export/a/x"), v("/export/t/.vfsi-cp-7-8-0")),
            (v("/export/b/y"), v("/export/t/.vfsi-cp-7-8-1")),
        ]
    );
    assert_eq!(plan.plans[1].0, v("/m/b/y"));
    assert_eq!(plan.plans[1].1.dest, v("/m/t/y"));
    assert_eq!(plan.plans[1].1.temp, v("/m/t/.vfsi-cp-7-8-1"));
}

#[test]
fn server_copies_are_all_or_none() {
    let plan = |enabled, sources: &Vec<CopySource>, t: &CopyTarget| {
        prepare_server_copy_batch(enabled, sources, t, 7, 8)
    };
    let two = || vec![copy_source("/m/a/x", "s"), copy_source("/m/b/y", "s")];
    let none = |sources: Vec<CopySource>| matches!(plan(true, &sources, &target()), Ok(None));
    assert!(matches!(plan(false, &two(), &target()), Ok(None)));
    assert!(none(vec![copy_source("/m/a/x", "s")]));
    assert!(matches!(plan(true, &two(), &CopyTarget { is_dir: false, ..target() }), Ok(None)));
    assert!(matches!(plan(true, &two(), &CopyTarget { mount: None, ..target() }), Ok(None)));
    let with_last = |last: CopySource| vec![copy_source("/m/a/x", "s"), last];
    assert!(none(with_last(CopySource { is_file: false, ..copy_source("/m/y", "s") })));
    assert!(none(with_last(CopySource { mount: None, ..copy_source("/m/y", "s") })));
    assert!(none(with_last(copy_source("/m/y", "other"))));
    assert!(none(with_last(copy_source("/m/y/..", "s"))));
    assert!(none(with_last(CopySource { dest_exists: true, ..copy_source("/m/y", "s") })));
    assert!(none(with_last(copy_source("/m/c/x", "s"))));
    let many: Vec<CopySource> = (0..MAX_SERVER_COPY_BATCH_FILES + 1)
        .map(|i| copy_source(&format!("/m/{i}"), "s"))
        .collect();
    assert!(none(many));
}

#[test]
fn planning_server_copies_can_fail() {
    let plan = |sources: Vec<CopySource>, t: CopyTarget| {
        prepare_server_copy_batch(true, &sources, &t, 7, 8).err()
    };
    let with_last = |last: CopySource| vec![copy_source("/m/a/x", "s"), last];
    let gone = CopySource { canonical: Err(GONE), ..copy_source("/m/y", "s") };
    assert_eq!(plan(with_last(gone), target()), Some(CopyError::Io(GONE)));
    let outside = CopySource { canonical: Ok(v("/home/y")), ..copy_source("/m/y", "s") };
    let error = Some(CopyError::Path(VfPathError::OutsideMount));
    assert_eq!(plan(with_last(outside), target()), error);
    let two = vec![copy_source("/m/a/x", "s"), copy_source("/m/b/y", "s")];
    let lost = CopyTarget { canonical: Err(GONE), ..target() };
    assert_eq!(plan(two, lost), Some(CopyError::Io(GONE)));
    let two = vec![copy_source("/m/a/x", "s"), copy_source("/m/b/y", "s")];
    let moved = CopyTarget { canonical: Ok(v("/home")), ..target() };
    assert_eq!(plan(two, moved), error);
}

#[test]
fn contexts_keep_what_the_server_copied() {
    let sources = || vec![copy_source("/m/a/x", "s"), copy_source("/m/b/y", "s")];
    let plan = || prepare_server_copy_batch(true, &sources(), &target(), 7, 8).unwrap().unwrap();
    let mut ctx = Context::new(mount("s", "/m"), Backend::Nfs { supports_copy: true });
    let temps = vec![v("/m/t/.vfsi-cp-7-8-0"), v("/m/t/.vfsi-cp-7-8-1")];
    assert_eq!(ctx.settle(plan(), false), temps);
    assert!(ctx.prepared_copies.remove(b"/m/a/x").is_none());
    assert!(ctx.settle(plan(), true).is_empty());
    let prepared = ctx.prepared_copies.remove(b"/m/a/x").unwrap();
    assert_eq!(prepared.dest, v("/m/t/x"));
    assert_eq!(ctx.leftovers(), [v("/m/t/.vfsi-cp-7-8-1")]);
}

#[test]
fn contexts_serve_one_mount() {
    let ctx = Context::new(mount("s", "/m"), Backend::Dummy);
    assert!(Context::serves(Some(&ctx), &mount("s", "/m/")));
    assert!(!Context::serves(Some(&ctx), &mount("t", "/m")));
    assert!(!Context::serves(None, &mount("s", "/m")));
}

#[test]
fn backends_copy_where_the_server_can() {
    let m = mount("s", "/m");
    assert!(matches!(make_context(Some(ImplChoice::Dummy), &m), Ok(Connecting::Dummy(r)) if r == b"/m"));
    assert!(matches!(make_context(Some(ImplChoice::Nfs), &m), Ok(Connecting::NfsMinor(s, COPYING_MINOR)) if s == "s"));
    assert_eq!(COPYING_MINOR, 2);
    assert!(make_context(None, &m).is_err());
    let backend = |tried| match after_try(tried, Ok(())) {
        Connected::Ready(b) => b,
        other => panic!("{other:?}"),
    };
    assert_eq!(backend(Connecting::Dummy(v("/m"))), Backend::Dummy);
    let copying = backend(Connecting::NfsMinor("s".to_string(), COPYING_MINOR));
    let plain = backend(Connecting::Nfs("s".to_string()));
    assert!(copying.can_copy() && !plain.can_copy() && !Backend::Dummy.can_copy());
}

#[test]
fn servers_that_cannot_copy_are_tried_again() {
    let first = Connecting::NfsMinor("s".to_string(), COPYING_MINOR);
    let again = match after_try(first, Err(LOST)) {
        Connected::Retry(c) => c,
        other => panic!("{other:?}"),
    };
    assert!(matches!(&again, Connecting::Nfs(s) if s == "s"));
    match after_try(again, Err(LOST)) {
        Connected::Failed(e) => assert_eq!((e.kind, e.source), (ErrorKind::ConnectionRefused, LOST)),
        other => panic!("{other:?}"),
    }
}

fn start(dest_mount: Option<Mount>, enabled: bool) -> Copying {
    let choice = Some(ImplChoice::Nfs);
    try_copy(choice, b"/m/x", b"/m/t/x", Some(mount("s", "/m")), dest_mount, enabled)
}

fn connected(c: Copying, copies: bool) -> Copying {
    assert!(matches!(c.step(), Step::Connect));
    let c = c.advance(Reply::Connected(mount("s", "/m"), copies));
    assert!(matches!(c.step(), Step::TakePrepared(p) if p == b"/m/x"));
    c
}

fn finished(c: &Copying) -> Result<Option<Method>, CopyFault> {
    match c.step() {
        Step::Finished(r) => r,
        other => panic!("{other:?}"),
    }
}

#[test]
fn copies_are_declined_where_no_backend_applies() {
    let m = || Some(mount("s", "/m"));
    assert_eq!(finished(&try_copy(None, b"a", b"b", m(), None, true)), Ok(None));
    assert_eq!(finished(&try_copy(Some(ImplChoice::Nfs), b"a", b"b", None, m(), true)), Ok(None));
}

#[test]
fn copies_fail_without_a_connection() {
    let c = start(None, true).advance(Reply::BackendFailed(LOST));
    assert!(matches!(finished(&c), Err(CopyFault::Backend(e)) if e.source == LOST));
    let c = start(None, true).advance(Reply::Disabled);
    assert_eq!(finished(&c), Err(CopyFault::Disabled));
    // An outcome is final.
    assert_eq!(finished(&c.advance(Reply::Done)), Err(CopyFault::Disabled));
}

#[test]
fn prepared_copies_are_moved_to_their_place() {
    let prepared = || Some(PreparedCopy { dest: v("/m/t//x"), temp: v("/m/t/.tmp") });
    let c = connected(start(None, true), true).advance(Reply::Prepared(prepared()));
    match c.step() {
        Step::Rename(from, to) => assert_eq!((from, to), (v("/m/t/.tmp"), v("/m/t/x"))),
        other => panic!("{other:?}"),
    }
    let c = c.advance(Reply::Done);
    assert_eq!(finished(&c), Ok(Some(Method::BatchedServerCopy)));
    assert_eq!(Method::BatchedServerCopy.name(), "vfsi-batched-server-copy");
    let c = connected(start(None, true), true)
        .advance(Reply::Prepared(prepared()))
        .advance(Reply::Failed(GONE));
    assert_eq!(finished(&c), Err(CopyFault::Io(GONE)));
}

#[test]
fn prepared_copies_for_other_places_are_dropped() {
    let other = Some(PreparedCopy { dest: v("/m/elsewhere"), temp: v("/m/.tmp") });
    let c = connected(start(None, true), true).advance(Reply::Prepared(other));
    assert!(matches!(c.step(), Step::Discard(p) if p == b"/m/.tmp"));
    let c = c.advance(Reply::Failed(GONE));
    assert!(matches!(c.step(), Step::TakePrefetched(p) if p == b"/m/x"));
}

#[test]
fn the_server_copies_between_its_own_files() {
    let c = connected(start(Some(mount("s", "/m")), true), true).advance(Reply::Prepared(None));
    assert!(matches!(c.step(), Step::Create(p, 0o600) if p == b"/m/t/x"));
    let c = c.advance(Reply::Done);
    assert!(matches!(c.step(), Step::Canonicalize(p) if p == b"/m/x"));
    let c = c.advance(Reply::Canonical(v("/m/x")));
    assert!(matches!(c.step(), Step::Canonicalize(p) if p == b"/m/t/x"));
    let c = c.advance(Reply::Canonical(v("/m/t/x")));
    match c.step() {
        Step::ServerCopy(from, to) => {
            assert_eq!((from, to), (v("/export/x"), v("/export/t/x")));
        }
        other => panic!("{other:?}"),
    }
    let c = c.advance(Reply::Done);
    assert_eq!(finished(&c), Ok(Some(Method::ServerCopy)));
    assert_eq!(Method::ServerCopy.name(), "vfsi-server-copy");
}

#[test]
fn refused_server_copies_fall_back_to_the_client() {
    let to_copy = |copies| {
        connected(start(Some(mount("s", "/m")), true), copies)
            .advance(Reply::Prepared(None))
            .advance(Reply::Done)
            .advance(Reply::Canonical(v("/m/x")))
            .advance(Reply::Canonical(v("/m/t/x")))
    };
    let refused = to_copy(true).advance(Reply::BackendFailed(LOST));
    assert!(matches!(refused.step(), Step::TakePrefetched(_)));
    assert!(matches!(to_copy(false).step(), Step::TakePrefetched(_)));
    let outside = connected(start(Some(mount("s", "/m")), true), true)
        .advance(Reply::Prepared(None))
        .advance(Reply::Done)
        .advance(Reply::Canonical(v("/home/x")));
    assert_eq!(finished(&outside), Err(CopyFault::Path(VfPathError::OutsideMount)));
    // Other servers and a switched off copy are no matter for the server.
    for (m, enabled) in [(mount("t", "/m"), true), (mount("s", "/m"), false)] {
        let c = connected(start(Some(m), enabled), true).advance(Reply::Prepared(None));
        assert!(matches!(c.step(), Step::TakePrefetched(_)));
    }
}

#[test]
fn contents_that_were_read_ahead_are_written() {
    let c = connected(start(None, true), true)
        .advance(Reply::Prepared(None))
        .advance(Reply::Prefetched(Some(v("data"))));
    assert!(matches!(c.step(), Step::Create(_, CREATE_MODE)));
    let c = c.advance(Reply::Done);
    assert!(matches!(c.step(), Step::Write(d) if d == b"data"));
    let c = c.advance(Reply::Done);
    assert_eq!(finished(&c), Ok(Some(Method::ClientRead)));
    assert_eq!(Method::ClientRead.name(), "vfsi-client-read");
}

fn reading() -> Copying {
    let c = connected(start(None, true), false)
        .advance(Reply::Prepared(None))
        .advance(Reply::Prefetched(None));
    assert!(matches!(c.step(), Step::Canonicalize(p) if p == b"/m/x"));
    let c = c.advance(Reply::Canonical(v("/m/x")));
    assert!(matches!(c.step(), Step::Open(p, READ_ONLY, 0) if p == b"/export/x"));
    let c = c.advance(Reply::Done);
    assert!(matches!(c.step(), Step::Create(p, 0o600) if p == b"/m/t/x"));
    let c = c.advance(Reply::Done);
    assert!(matches!(c.step(), Step::Read(0, READ_SIZE)));
    c
}

#[test]
fn files_are_read_piece_by_piece() {
    let c = reading().advance(Reply::Data(v("hello "), false));
    assert!(matches!(c.step(), Step::Write(d) if d == b"hello "));
    let c = c.advance(Reply::Done);
    assert!(matches!(c.step(), Step::Read(6, READ_SIZE)));
    let c = c.advance(Reply::Data(v("world"), true)).advance(Reply::Done);
    assert!(matches!(c.step(), Step::Close));
    let c = c.advance(Reply::Done);
    assert_eq!(finished(&c), Ok(Some(Method::ClientRead)));
}

#[test]
fn sources_are_closed_whatever_goes_wrong() {
    let c = reading().advance(Reply::BackendFailed(LOST));
    assert!(matches!(c.step(), Step::Close));
    // The first fault is the one that is told.
    let c = c.advance(Reply::Failed(GONE));
    assert!(matches!(finished(&c), Err(CopyFault::Backend(e)) if e.source == LOST));
    let c = reading().advance(Reply::Data(v("x"), true)).advance(Reply::Failed(GONE));
    assert!(matches!(c.step(), Step::Close));
    assert_eq!(finished(&c.advance(Reply::Done)), Err(CopyFault::Io(GONE)));
    let c = reading().advance(Reply::Data(v("x"), true)).advance(Reply::Done);
    let c = c.advance(Reply::BackendFailed(LOST));
    assert!(matches!(finished(&c), Err(CopyFault::Backend(_))));
}
