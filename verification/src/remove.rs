//! Removing a path through a backend: what to remove, and by which name.
use crate::mount::{
    find_mount, last_longest, law_longest_mount_is_chosen,
    law_mounted_path_keeps_components, mounts_over, ImplChoice, Mount,
    MountView,
};
use crate::path::{
    components, copy_bytes, file_name, file_name_spec, is_plain_name, join, join_spec,
    lemma_file_name_is_plain, lemma_join_components, lemma_plain_name, lemma_spans,
    lemma_tail_components, parent, parent_spec, same_path, strip_prefix, strip_prefix_spec,
    tail_from, Component, DOT, SLASH,
};
use crate::text::lines_spec;
use vstd::prelude::*;

verus! {

/// A path to remove: its mount, its name from the root of the mount, and its
/// name on the server.
#[derive(Debug)]
pub struct RemovePaths {
    pub mount: Mount,
    pub dummy_path: Vec<u8>,
    pub nfs_path: Vec<u8>,
}

/// The directory that holds `path`: its parent, or `.` where it names none.
pub open spec fn holding_dir(path: Seq<u8>) -> Seq<u8> {
    match parent_spec(path) {
        Some(p) if p.len() > 0 => p,
        _ => seq![DOT],
    }
}

/// The directory that holds `path`, and the name of `path` in it. Only a path
/// that ends in an ordinary name can be removed.
pub fn remove_parent(path: &[u8]) -> (r: Option<(Vec<u8>, Vec<u8>)>)
    ensures
        match r {
            Some((dir, name)) => dir@ == holding_dir(path@) && file_name_spec(path@) == Some(name@),
            None => file_name_spec(path@) is None,
        },
{
    match file_name(path) {
        None => None,
        Some(name) => {
            let here: [u8; 1] = [DOT];
            assert(here@ =~= seq![DOT]);
            let dir = match parent(path) {
                Some(p) => {
                    if p.len() > 0 {
                        copy_bytes(p)
                    } else {
                        copy_bytes(&here)
                    }
                },
                None => copy_bytes(&here),
            };
            Some((dir, copy_bytes(name)))
        },
    }
}

/// The names of `name` in the directory `dir` for both backends: its mount, its
/// path from the root of the mount, its path on the server.
pub open spec fn removal(dir: Seq<u8>, name: Seq<u8>, mounts: Seq<char>) -> Option<
    (MountView, Seq<u8>, Seq<u8>),
> {
    let absolute = join_spec(dir, name);
    match last_longest(mounts_over(dir, lines_spec(mounts))) {
        None => None,
        Some(m) => if components(absolute) == components(m.point) {
            None
        } else {
            match strip_prefix_spec(absolute, m.point) {
                None => None,
                Some(rel) => Some((m, join_spec(seq![SLASH], rel), join_spec(m.export, rel))),
            }
        },
    }
}

/// What to remove, from the canonical form of the directory that holds it, its
/// name there and the text of the mount table. A mount point is left alone: on
/// the server its name is that of the export itself.
pub fn remove_paths(dir: &[u8], name: &[u8], mounts: &str) -> (r: Option<RemovePaths>)
    ensures
        match r {
            Some(p) => removal(dir@, name@, mounts@) == Some(
                (p.mount@, p.dummy_path@, p.nfs_path@),
            ),
            None => removal(dir@, name@, mounts@) is None,
        },
{
    let mount = match find_mount(dir, mounts) {
        Some(m) => m,
        None => {
            return None;
        },
    };
    let absolute = join(dir, name);
    if same_path(absolute.as_slice(), mount.point.as_slice()) {
        return None;
    }
    match strip_prefix(absolute.as_slice(), mount.point.as_slice()) {
        None => None,
        Some(rel) => {
            let root: [u8; 1] = [SLASH];
            assert(root@ =~= seq![SLASH]);
            let dummy_path = join(&root, rel);
            let nfs_path = join(mount.export.as_slice(), rel);
            Some(RemovePaths { mount, dummy_path, nfs_path })
        },
    }
}

proof fn lemma_holding_dir_is_named(dir: Seq<u8>, mounts: Seq<char>)
    requires
        last_longest(mounts_over(dir, lines_spec(mounts))) is Some,
    ensures
        dir.len() > 0,
{
    law_longest_mount_is_chosen(dir, lines_spec(mounts));
    let m = last_longest(mounts_over(dir, lines_spec(mounts)))->0;
    lemma_spans(m.point);
    lemma_spans(dir);
    assert(components(m.point).len() <= components(dir).len());
}

/// What is removed lies strictly below the mount point, and its names for both
/// backends lie below their roots by those same components: the export itself
/// is never what is removed.
pub proof fn law_removal_stays_below_mount(dir: Seq<u8>, name: Seq<u8>, mounts: Seq<char>)
    requires
        is_plain_name(name),
        removal(dir, name, mounts) is Some,
    ensures
        ({
            let (m, dummy, nfs) = removal(dir, name, mounts)->0;
            let below = components(join_spec(dir, name)).skip(components(m.point).len() as int);
            &&& components(m.point).is_prefix_of(components(join_spec(dir, name)))
            &&& below.len() > 0
            &&& below.last() == Component::Normal(name)
            &&& components(dummy) == seq![Component::RootDir] + below
            &&& components(nfs) == components(m.export) + below
        }),
{
    let (m, dummy, nfs) = removal(dir, name, mounts)->0;
    let absolute = join_spec(dir, name);
    lemma_holding_dir_is_named(dir, mounts);
    law_longest_mount_is_chosen(dir, lines_spec(mounts));
    lemma_plain_name(name);
    lemma_join_components(dir, name);
    let n = components(m.point).len() as int;
    lemma_spans(m.point);
    lemma_tail_components(absolute, n);
    let rel = tail_from(absolute, n);
    law_mounted_path_keeps_components(absolute, m);
    assert(n <= components(dir).len());
    let root = seq![SLASH];
    lemma_join_components(root, rel);
    assert(components(root) == seq![Component::RootDir]) by {
        let e = Seq::<u8>::empty();
        crate::path::lemma_components_slash_root(e);
        assert(root + e =~= root);
        assert(crate::path::body_components(e) =~= Seq::empty());
        assert(seq![Component::RootDir] + crate::path::body_components(e)
            =~= seq![Component::RootDir]);
    }
}

/// Every path on an NFS mount that ends in an ordinary name can be removed
/// through a backend, by whatever name it is given.
pub proof fn law_removal_is_found(path: Seq<u8>, dir: Seq<u8>, mounts: Seq<char>)
    requires
        file_name_spec(path) is Some,
        last_longest(mounts_over(dir, lines_spec(mounts))) is Some,
    ensures
        removal(dir, file_name_spec(path)->0, mounts) is Some,
{
    let name = file_name_spec(path)->0;
    lemma_holding_dir_is_named(dir, mounts);
    lemma_file_name_is_plain(path);
    lemma_plain_name(name);
    lemma_join_components(dir, name);
    law_longest_mount_is_chosen(dir, lines_spec(mounts));
    let m = last_longest(mounts_over(dir, lines_spec(mounts)))->0;
    let absolute = join_spec(dir, name);
    let n = components(m.point).len() as int;
    assert(components(m.point) =~= components(absolute).subrange(0, n));
    assert(components(absolute).len() == components(dir).len() + 1);
}

/// The removal to carry out.
#[derive(Debug)]
pub enum RemoveAction {
    /// None: the caller removes the path the usual way.
    Fallback,
    /// Remove `path` with the local backend, rooted at the directory `root`, and
    /// what lies below it where `recursive` is set.
    Dummy { root: Vec<u8>, path: Vec<u8>, recursive: bool },
    /// Remove `path` on the server, and what lies below it where `recursive` is
    /// set.
    Nfs { server: String, path: Vec<u8>, recursive: bool },
}

/// What came of the removal.
#[derive(Clone, Copy, Debug, PartialEq, Eq, Structural)]
pub enum RemoveReply {
    /// It was not tried, or the server could not be reached.
    NoBackend,
    Removed,
    Failed,
}

/// The removal to try, from what was found and the value of `VNFS_IMPL`.
pub fn try_remove(
    found: Option<RemovePaths>,
    choice: Option<ImplChoice>,
    recursive: bool,
) -> (r: RemoveAction)
    ensures
        r == (match (found, choice) {
            (Some(p), Some(ImplChoice::Dummy)) => RemoveAction::Dummy {
                root: p.mount.point,
                path: p.dummy_path,
                recursive,
            },
            (Some(p), Some(ImplChoice::Nfs)) => RemoveAction::Nfs {
                server: p.mount.server,
                path: p.nfs_path,
                recursive,
            },
            _ => RemoveAction::Fallback,
        }),
{
    match (found, choice) {
        (Some(p), Some(ImplChoice::Dummy)) => RemoveAction::Dummy {
            root: p.mount.point,
            path: p.dummy_path,
            recursive,
        },
        (Some(p), Some(ImplChoice::Nfs)) => RemoveAction::Nfs {
            server: p.mount.server,
            path: p.nfs_path,
            recursive,
        },
        _ => RemoveAction::Fallback,
    }
}

/// Whether the caller is done: only where a backend did remove the path.
pub fn removed(reply: RemoveReply) -> (r: bool)
    ensures
        r == (reply == RemoveReply::Removed),
{
    matches!(reply, RemoveReply::Removed)
}

} // verus!
