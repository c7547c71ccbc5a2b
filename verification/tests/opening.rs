use vecls::attrs::{AttrMask, VfAttrs, VfError, VfFault};
use vecls::config::{Config, Dereference, Files, Format, SizeFormat, Sort, TimeField};
use vecls::meta::{LsDirEntry, LsReadDir};
use vecls::mount::ImplChoice;
use vecls::open::{
    ctx_open_many, kernel_tree, make_ctx, opened, try_open_many_vf, try_open_vf, try_walk_vf,
    Connection, Delivery, Disabled, Environment,
};
use vecls::walk::WalkEntry;

const TABLE: &str = "s:/e /mnt nfs4 rw 0 0\ns:/o /other nfs rw 0 0\n";

fn config() -> Config {
    Config {
        format: Format::Columns,
        files: Files::Normal,
        sort: Sort::Name,
        time: TimeField::Modification,
        dereference: Dereference::Never,
        size_format: SizeFormat::Bytes,
        block_size: 1024,
        recursive: false,
        reverse: false,
        directory: false,
        group_directories_first: false,
        alloc_size: false,
        dired: false,
        hyperlink: false,
        context: false,
        locale_collation: false,
    }
}

fn report(path: &str) -> VfAttrs {
    VfAttrs {
        path: Some(path.as_bytes().to_vec()),
        ftype: 1,
        returned: AttrMask { bits: 0 },
        size: 0,
        nlink: 1,
        uid: 0,
        gid: 0,
        rdev: 0,
        fileid: 0,
        blocks: 0,
        mode: 0,
        atime_sec: 0,
        atime_nsec: 0,
        mtime_sec: 0,
        mtime_nsec: 0,
        ctime_sec: 0,
        ctime_nsec: 0,
    }
}

fn delivery(path: &str, dir: &str) -> Delivery {
    Delivery { attrs: report(path), dir: dir.as_bytes().to_vec() }
}

fn paths(list: &[&str]) -> Vec<Vec<u8>> {
    list.iter().map(|p| p.as_bytes().to_vec()).collect()
}

fn names(rd: Option<&mut LsReadDir>) -> Vec<String> {
    let mut out = Vec::new();
    if let Some(rd) = rd {
        while let Some(e) = rd.next() {
            if let Ok(LsDirEntry::Vf { name, .. }) = e {
                out.push(String::from_utf8(name).unwrap());
            }
        }
    }
    out.sort();
    out
}

#[test]
fn open_many_lists_all_dirs() {
    let dirs = paths(&["/root/d1", "/root/d2"]);
    let delivered = vec![delivery("/d1/f.txt", "/d1"), delivery("/d2/f.txt", "/d2")];
    let mut out = ctx_open_many(b"/root", &dirs, &dirs, &delivered, None);
    assert_eq!(out.len(), 2);
    assert!(out.iter().all(Option::is_some));
    assert_eq!(names(out[0].as_mut()), vec!["f.txt"]);
    assert_eq!(names(out[1].as_mut()), vec!["f.txt"]);
}

#[test]
fn open_many_falls_back_after_failing_dir() {
    let dirs = paths(&["/root/d0", "/root/d1", "/root/d2"]);
    let delivered = vec![delivery("/d0/a.txt", "/d0")];
    let error = VfError { fault: VfFault::Op { err_no: 2 }, index: Some(1) };
    let mut out = ctx_open_many(b"/root", &dirs, &dirs, &delivered, Some(error));
    assert!(out[0].is_some(), "prefix dir listed before the failure");
    assert!(out[1].is_none(), "failing dir falls back to per-dir open");
    assert!(out[2].is_none(), "later dirs also fall back");
    assert_eq!(names(out[0].as_mut()), vec!["a.txt"]);
}

#[test]
fn a_failure_without_a_place_strikes_the_first_directory() {
    let dirs = paths(&["/m/a", "/m/b"]);
    let lost = VfError { fault: VfFault::Transport, index: None };
    let open = |dirs: &Vec<Vec<u8>>, e| ctx_open_many(b"/m", dirs, dirs, &Vec::new(), Some(e));
    assert!(open(&dirs, lost).iter().all(Option::is_none));
    // A place beyond the batch counts as the last.
    let beyond = VfError { fault: VfFault::Other, index: Some(9) };
    let out = open(&dirs, beyond);
    assert!(out[0].is_some() && out[1].is_none());
    assert!(open(&Vec::new(), lost).is_empty());
}

#[test]
fn reports_reach_their_directory() {
    let dirs = paths(&["/m/a", "/m/b/"]);
    let delivered = vec![
        delivery("/b/2", "/b"),
        delivery("/a/1", "/a"),
        delivery("/c/9", "/c"),
        delivery("/b/3", "//b"),
    ];
    let mut out = ctx_open_many(b"/m", &dirs, &dirs, &delivered, None);
    assert_eq!(names(out[0].as_mut()), vec!["1"]);
    assert_eq!(names(out[1].as_mut()), vec!["2", "3"]);
}

#[test]
fn directories_given_twice_are_both_listed() {
    let dirs = paths(&["/root/d1", "/root/d1"]);
    let mut out = ctx_open_many(b"/root", &dirs, &dirs, &vec![delivery("/d1/f.txt", "/d1")], None);
    assert_eq!(names(out[0].as_mut()), vec!["f.txt"]);
    assert_eq!(names(out[1].as_mut()), vec!["f.txt"]);
}

#[test]
fn failures_strike_the_directories_that_were_asked_for() {
    // Asked for are a, b and c, each once; it is b that failed.
    let dirs = paths(&["/m/a", "/m/a/", "/m/b", "/m/a", "/m/c"]);
    let error = VfError { fault: VfFault::Op { err_no: 13 }, index: Some(1) };
    let mut out = ctx_open_many(b"/m", &dirs, &dirs, &vec![delivery("/a/f", "/a")], Some(error));
    assert_eq!(names(out[0].as_mut()), vec!["f"]);
    assert_eq!(names(out[1].as_mut()), vec!["f"]);
    assert!(out[2..].iter().all(Option::is_none));
}

#[test]
fn entries_keep_the_path_that_was_given() {
    let dirs = paths(&["sub", "link"]);
    let canonical = paths(&["/mnt/d/sub", "/mnt/e"]);
    let delivered = vec![delivery("/d/sub/x", "/d/sub"), delivery("/e/y", "/e")];
    let mut out = ctx_open_many(b"/mnt", &dirs, &canonical, &delivered, None);
    for (i, expected) in [(0, &b"sub/x"[..]), (1, &b"link/y"[..])] {
        match out[i].as_mut().unwrap().next() {
            Some(Ok(LsDirEntry::Vf { path, .. })) => assert_eq!(path, expected),
            _ => panic!("an entry was expected"),
        }
    }
}

#[test]
fn opened_directories_have_local_paths() {
    let mut rd = opened(b"d/", &vec![report("/x/f"), report("/")]);
    match rd.next() {
        Some(Ok(LsDirEntry::Vf { path, name, .. })) => {
            assert_eq!((path.as_slice(), name.as_slice()), (&b"d/f"[..], &b"f"[..]));
        }
        _ => panic!("an entry was expected"),
    }
    // A report without a name stands for the directory.
    assert!(matches!(rd.next(), Some(Ok(LsDirEntry::Vf { name, .. })) if name.is_empty()));
}

#[test]
fn backends_are_set_up_as_chosen() {
    assert!(matches!(make_ctx(Some(ImplChoice::Dummy), b"/m"), Ok(Connection::Dummy(r)) if r == b"/m"));
    assert!(matches!(make_ctx(Some(ImplChoice::Nfs), b"/m"), Ok(Connection::Nfs("127.0.0.1"))));
    assert!(matches!(make_ctx(None, b"/m"), Err(Disabled)));
}

#[test]
fn directories_on_nfs_are_asked_of_the_backend() {
    let env = Environment { implementation: Some("dummy"), mounts: Some(TABLE) };
    let q = try_open_vf(&env, b"/mnt/d", None, &config()).unwrap();
    assert_eq!(q.directories, paths(&["/d"]));
    assert_eq!(q.mountpoint, b"/mnt");
    assert_eq!(q.mask.bits, 0x7ff);
    assert!(matches!(q.connection, Some(Connection::Dummy(r)) if r == b"/mnt"));
    // It is the canonical path that is asked for, from the root of the mount.
    let q = try_open_vf(&env, b"/mnt/d/sub", None, &config()).unwrap();
    assert_eq!(q.directories, paths(&["/d/sub"]));
    let nested = "s:/ /mnt nfs4 rw 0 0\ns:/nested /mnt/nested nfs rw 0 0\n";
    let env = Environment { implementation: Some("dummy"), mounts: Some(nested) };
    let q = try_open_vf(&env, b"/mnt/nested/tree", None, &config()).unwrap();
    assert_eq!((q.mountpoint, q.directories), (b"/mnt/nested".to_vec(), paths(&["/tree"])));
}

#[test]
fn a_backend_serves_its_own_mount_alone() {
    let env = Environment { implementation: Some("dummy"), mounts: Some(TABLE) };
    let q = try_walk_vf(&env, b"/mnt/d", Some(b"/mnt/"), &config()).unwrap();
    assert!(q.connection.is_none());
    assert_eq!(q.directories, paths(&["/d"]));
    let q = try_walk_vf(&env, b"/mnt/d", Some(b"/other"), &config()).unwrap();
    assert!(matches!(q.connection, Some(Connection::Dummy(r)) if r == b"/mnt"));
    assert_eq!((q.mountpoint, q.directories), (b"/mnt".to_vec(), paths(&["/d"])));
    let dirs = paths(&["/other/a", "/other/b"]);
    let q = try_open_many_vf(&env, &dirs, Some(b"/mnt"), &config()).unwrap();
    assert!(matches!(q.connection, Some(Connection::Dummy(r)) if r == b"/other"));
}

#[test]
fn other_directories_are_not_asked_of_the_backend() {
    let off = Environment { implementation: Some("off"), mounts: Some(TABLE) };
    assert!(try_open_vf(&off, b"/mnt/d", None, &config()).is_none());
    let unset = Environment { implementation: None, mounts: Some(TABLE) };
    assert!(try_walk_vf(&unset, b"/mnt/d", None, &config()).is_none());
    let on = Environment { implementation: Some("nfs"), mounts: Some(TABLE) };
    assert!(try_open_vf(&on, b"/home", None, &config()).is_none());
    let unread = Environment { implementation: Some("nfs"), mounts: None };
    assert!(try_open_vf(&unread, b"/mnt/d", None, &config()).is_none());
}

#[test]
fn several_directories_are_asked_together_on_one_mount() {
    let env = Environment { implementation: Some("nfs"), mounts: Some(TABLE) };
    let long = Config { format: Format::Long, ..config() };
    let dirs = paths(&["/mnt/a", "/mnt/b"]);
    let q = try_open_many_vf(&env, &dirs, None, &long).unwrap();
    assert_eq!(q.directories, paths(&["/a", "/b"]));
    assert_eq!(q.mask.bits, 0xfff);
    // Each directory is asked for once.
    let twice = paths(&["/mnt/a", "/mnt/b", "/mnt//a", "/mnt/b/"]);
    let q = try_open_many_vf(&env, &twice, None, &long).unwrap();
    assert_eq!(q.directories, paths(&["/a", "/b"]));
    let one = paths(&["/mnt/a"]);
    assert!(try_open_many_vf(&env, &one, None, &long).is_none());
    let mixed = paths(&["/mnt/a", "/other/b"]);
    assert!(try_open_many_vf(&env, &mixed, None, &long).is_none());
    let outside = paths(&["/mnt/a", "/b"]);
    assert!(try_open_many_vf(&env, &outside, None, &long).is_none());
    let off = Environment { implementation: None, mounts: Some(TABLE) };
    assert!(try_open_many_vf(&off, &dirs, None, &long).is_none());
}

fn walked_names(root: &str, canonical: &str, vpaths: &[&str]) -> Vec<String> {
    let tree = vpaths
        .iter()
        .map(|p| WalkEntry { path: p.as_bytes().to_vec(), entries: vec![report("/x/y")] })
        .collect();
    let local = kernel_tree(b"/mnt", root.as_bytes(), canonical.as_bytes(), tree);
    assert!(local.iter().all(|w| w.entries.len() == 1));
    local.into_iter().map(|w| String::from_utf8(w.path).unwrap()).collect()
}

#[test]
fn walked_trees_get_local_names() {
    assert_eq!(walked_names("/mnt", "/mnt", &["/", "/a", "/a/b"]), ["/mnt/", "/mnt/a", "/mnt/a/b"]);
    assert_eq!(walked_names("/mnt/d/", "/mnt/d", &["/d", "/d/a"]), ["/mnt/d", "/mnt/d/a"]);
}

#[test]
fn walked_roots_keep_the_name_that_was_given() {
    // A link on the mount, and links and relative names from elsewhere.
    assert_eq!(walked_names("/mnt/link", "/mnt/real", &["/real", "/real/s"]), ["/mnt/link", "/mnt/link/s"]);
    assert_eq!(walked_names("/home/l", "/mnt/real", &["/real", "/real/s"]), ["/home/l", "/home/l/s"]);
    assert_eq!(walked_names("sub", "/mnt/d/sub", &["/d/sub", "/d/sub/x/y"]), ["sub", "sub/x/y"]);
    assert_eq!(walked_names(".", "/mnt", &["/", "/a"]), [".", "./a"]);
    // What lies elsewhere on the mount is named by its place there.
    assert_eq!(walked_names("sub", "/mnt/d/sub", &["/d/other"]), ["/mnt/d/other"]);
}
