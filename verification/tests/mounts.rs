use vecls::mount::{
    destination_parent, find_mount, impl_choice, kernel_path, mounted_vf_path, new_mounted_vf_path,
    nfs_mountpoint, vf_path, ImplChoice, Mount, VfPathError,
};
use vecls::path::same_path;
use vecls::remove::{remove_parent, remove_paths, removed, try_remove, RemoveAction, RemoveReply};

fn mount(server: &str, export: &str, point: &str) -> Mount {
    Mount {
        server: server.to_string(),
        export: export.as_bytes().to_vec(),
        point: point.as_bytes().to_vec(),
    }
}

#[test]
fn selects_longest_nfs_mount() {
    let mounts = "server:/ /mnt nfs4 rw 0 0\nserver:/nested /mnt/nested nfs rw 0 0\n";
    let mount = find_mount(b"/mnt/nested/tree", mounts).unwrap();
    assert_eq!(mount.point, b"/mnt/nested");
    assert_eq!(mount.export, b"/nested");
}

#[test]
fn of_equally_long_mounts_the_last_is_selected() {
    let mounts = "a:/x /mnt nfs rw 0 0\nb:/y /mnt nfs4 rw 0 0\n";
    let m = find_mount(b"/mnt/f", mounts).unwrap();
    assert_eq!((m.server.as_str(), m.export.as_slice()), ("b", &b"/y"[..]));
}

#[test]
fn only_nfs_mounts_over_the_path_count() {
    let mounts = "tmpfs /mnt tmpfs rw 0 0\nserver:/ /other nfs rw 0 0\nbroken\nnocolon /mnt nfs\n";
    assert!(find_mount(b"/mnt/f", mounts).is_none());
    assert!(find_mount(b"/mntx", "server:/ /mnt nfs4").is_none());
}

#[test]
fn brackets_around_the_server_are_dropped() {
    let m = find_mount(b"/m/f", "[fe80::1]:/export /m nfs4 rw").unwrap();
    assert_eq!(m.server, "fe80::1");
    assert_eq!(m.export, b"/export");
}

#[test]
fn lines_may_end_in_carriage_returns() {
    let m = find_mount(b"/m/f", "x\r\nserver:/e /m nfs\r\n").unwrap();
    assert_eq!(m.point, b"/m");
}

#[test]
fn longest_mount_point_over_the_path_is_found() {
    let table = "server:/ /mnt nfs4 rw 0 0\nserver:/nested /mnt/nested nfs rw 0 0\n";
    assert_eq!(nfs_mountpoint(b"/mnt/nested/tree", table), Some(b"/mnt/nested".to_vec()));
    assert_eq!(nfs_mountpoint(b"/mnt/tree", table), Some(b"/mnt".to_vec()));
    let turned = "b:/n /n nfs rw\na:/ / nfs4 rw\n";
    assert_eq!(nfs_mountpoint(b"/n/f", turned), Some(b"/n".to_vec()));
    // Lines that are too short are passed over; of equally long points the last counts.
    assert_eq!(nfs_mountpoint(b"/n/f", "short line\nb:/n /n nfs rw\n"), Some(b"/n".to_vec()));
    assert_eq!(nfs_mountpoint(b"/n/f", "a:/ /n/ nfs\nb:/ //n nfs\n"), Some(b"//n".to_vec()));
    assert_eq!(nfs_mountpoint(b"/n/f", "t /n ext4 rw\nb:/n /n nfs rw\n"), Some(b"/n".to_vec()));
    assert_eq!(nfs_mountpoint(b"/n/f", ""), None);
}

#[test]
fn backend_is_chosen_by_name() {
    assert_eq!(impl_choice(Some("dummy")), Some(ImplChoice::Dummy));
    assert_eq!(impl_choice(Some("nfs")), Some(ImplChoice::Nfs));
    assert_eq!(impl_choice(Some("off")), None);
    assert_eq!(impl_choice(Some("NFS")), None);
    assert_eq!(impl_choice(Some("")), None);
    assert_eq!(impl_choice(None), None);
}

#[test]
fn names_on_the_mount_and_back() {
    assert_eq!(vf_path(b"/mnt", b"/mnt/a/b"), b"/a/b");
    assert_eq!(vf_path(b"/mnt", b"/mnt"), b"/");
    assert_eq!(vf_path(b"/mnt", b"rel"), b"/rel");
    assert_eq!(vf_path(b"/mnt", b"/elsewhere"), b"/elsewhere");
    assert_eq!(kernel_path(b"/mnt", b"/a/b"), b"/mnt/a/b");
    assert!(same_path(&kernel_path(b"/mnt", &vf_path(b"/mnt", b"/mnt/a//b/")), b"/mnt/a/b"));
}

#[test]
fn server_names_of_paths() {
    let m = mount("s", "/export", "/mnt");
    assert_eq!(mounted_vf_path(b"/mnt/d/f", &m), Ok(b"/export/d/f".to_vec()));
    assert_eq!(mounted_vf_path(b"/home/f", &m), Err(VfPathError::OutsideMount));
    assert_eq!(new_mounted_vf_path(b"x/new", b"/mnt/d", &m), Ok(b"/export/d/new".to_vec()));
    assert_eq!(new_mounted_vf_path(b"x/..", b"/mnt/d", &m), Err(VfPathError::NoFileName));
    assert_eq!(new_mounted_vf_path(b"x/new", b"/home", &m), Err(VfPathError::OutsideMount));
    assert_eq!(destination_parent(b"/"), Err(VfPathError::NoParent));
    assert_eq!(destination_parent(b"d/f"), Ok(&b"d"[..]));
    assert_eq!(VfPathError::OutsideMount.message(), "path is outside VFSI mount");
    assert_eq!(VfPathError::NoParent.message(), "destination has no parent");
    assert_eq!(VfPathError::NoFileName.message(), "destination has no file name");
}

#[test]
fn mounts_are_compared_by_components() {
    let a = mount("s", "/e", "/m");
    assert!(a.same_as(&mount("s", "/e/", "//m")));
    assert!(!a.same_as(&mount("t", "/e", "/m")));
    assert!(!a.same_as(&mount("s", "/f", "/m")));
    assert!(!a.same_as(&mount("s", "/e", "/n")));
    assert!(a.duplicate().same_as(&a));
}

#[test]
fn only_ordinary_names_are_removed() {
    assert_eq!(remove_parent(b"a/b"), Some((b"a".to_vec(), b"b".to_vec())));
    assert_eq!(remove_parent(b"b"), Some((b".".to_vec(), b"b".to_vec())));
    assert_eq!(remove_parent(b"/b"), Some((b"/".to_vec(), b"b".to_vec())));
    assert_eq!(remove_parent(b"a/.."), None);
    assert_eq!(remove_parent(b"/"), None);
    assert_eq!(remove_parent(b""), None);
}

#[test]
fn removal_names_the_path_for_both_backends() {
    let table = "server:/export /mnt nfs4 rw 0 0\n";
    let p = remove_paths(b"/mnt/d", b"f", table).unwrap();
    assert_eq!(p.dummy_path, b"/d/f");
    assert_eq!(p.nfs_path, b"/export/d/f");
    assert_eq!(p.mount.server, "server");
    assert!(remove_paths(b"/home", b"f", table).is_none());
}

#[test]
fn mount_points_are_never_removed() {
    let table = "a:/x / nfs4 rw 0 0\nserver:/export /mnt nfs4 rw 0 0\n";
    // The holding directory lies on the outer mount, the path itself is a mount point.
    let p = remove_paths(b"/", b"mnt", table).unwrap();
    assert_eq!(p.mount.point, b"/");
    assert_eq!(p.nfs_path, b"/x/mnt");
    let own = "server:/export /mnt/.. nfs4 rw 0 0\n";
    assert!(remove_paths(b"/mnt", b"..", own).is_none());
}

#[test]
fn removal_goes_to_the_chosen_backend() {
    let table = "server:/export /mnt nfs4 rw 0 0\n";
    let found = || remove_paths(b"/mnt", b"f", table);
    match try_remove(found(), Some(ImplChoice::Dummy), true) {
        RemoveAction::Dummy { root, path, recursive } => {
            assert_eq!((root.as_slice(), path.as_slice()), (&b"/mnt"[..], &b"/f"[..]));
            assert!(recursive);
        }
        other => panic!("{other:?}"),
    }
    match try_remove(found(), Some(ImplChoice::Nfs), false) {
        RemoveAction::Nfs { server, path, recursive } => {
            assert_eq!((server.as_str(), path.as_slice()), ("server", &b"/export/f"[..]));
            assert!(!recursive);
        }
        other => panic!("{other:?}"),
    }
    assert!(matches!(try_remove(found(), None, true), RemoveAction::Fallback));
    assert!(matches!(try_remove(None, Some(ImplChoice::Nfs), true), RemoveAction::Fallback));
    assert!(removed(RemoveReply::Removed));
    assert!(!removed(RemoveReply::Failed));
    assert!(!removed(RemoveReply::NoBackend));
}
