//! Directories opened through the backend: when that is done, what is asked of
//! it, and what its answers stand for.
use crate::attrs::{full_mask, listed_attributes, AttrMask, VfAttrs, VfError, ATTR_NAMED_ATTR};
use crate::config::{Config, Format};
use crate::entry::same_attrs;
use crate::entry_order::{name_of, vf_name};
use crate::listing::{lemma_set_places, set_places};
use crate::meta::{LsDirEntry, LsReadDir};
use crate::mount::{
    chosen, impl_choice, longest_point, nfs_mountpoint, vf_path, vf_path_spec, walked_path,
    walked_path_spec, ImplChoice,
};
use crate::path::{components, copy_bytes, join, join_spec, same_path, Component};
use crate::pathmap::PathMap;
use crate::text::lines_spec;
use crate::walk::WalkEntry;
use vstd::prelude::*;

verus! {

// ---------------------------------------------------------------------------
// Whether the backend is used
// ---------------------------------------------------------------------------

/// What of the system decides whether the backend is used.
pub struct Environment<'a> {
    /// The value of `VNFS_IMPL`.
    pub implementation: Option<&'a str>,
    /// The mount table, if it can be read.
    pub mounts: Option<&'a str>,
}

impl<'a> Environment<'a> {
    pub open spec fn choice(self) -> Option<ImplChoice> {
        chosen(
            match self.implementation {
                Some(v) => Some(v@),
                None => None,
            },
        )
    }

    /// The mount point of the NFS mount that a canonical path lies on.
    pub open spec fn mountpoint(self, canonical: Seq<u8>) -> Option<Seq<u8>> {
        match self.mounts {
            Some(table) => longest_point(canonical, lines_spec(table@)),
            None => None,
        }
    }

    fn find_mountpoint(&self, canonical: &[u8]) -> (r: Option<Vec<u8>>)
        ensures
            match r {
                Some(p) => self.mountpoint(canonical@) == Some(p@),
                None => self.mountpoint(canonical@) is None,
            },
    {
        match self.mounts {
            Some(table) => nfs_mountpoint(canonical, table),
            None => None,
        }
    }
}

/// How a backend is set up.
#[derive(Debug)]
pub enum Connection {
    /// The local file system below this directory.
    Dummy(Vec<u8>),
    /// The NFS server on this host.
    Nfs(&'static str),
}

/// The backend was not chosen.
#[derive(Clone, Copy, Debug, PartialEq, Eq, Structural)]
pub struct Disabled;

pub open spec fn connects(c: Connection, choice: ImplChoice, mountpoint: Seq<u8>) -> bool {
    match choice {
        ImplChoice::Dummy => c matches Connection::Dummy(root) && root@ == mountpoint,
        ImplChoice::Nfs => c matches Connection::Nfs(host) && host@ == "127.0.0.1"@,
    }
}

/// How the chosen backend is set up for a mount.
pub fn make_ctx(choice: Option<ImplChoice>, mountpoint: &[u8]) -> (r: Result<Connection, Disabled>)
    ensures
        match choice {
            Some(c) => r matches Ok(connection) && connects(connection, c, mountpoint@),
            None => r is Err,
        },
{
    match choice {
        Some(ImplChoice::Dummy) => Ok(Connection::Dummy(copy_bytes(mountpoint))),
        Some(ImplChoice::Nfs) => Ok(Connection::Nfs("127.0.0.1")),
        None => Err(Disabled),
    }
}

/// What is asked of the backend.
#[derive(Debug)]
pub struct Request {
    /// The backend to set up first, where none is there.
    pub connection: Option<Connection>,
    /// The mount point that the backend serves.
    pub mountpoint: Vec<u8>,
    /// The directories to list, by their names from the root of the mount.
    pub directories: Vec<Vec<u8>>,
    pub mask: AttrMask,
}

/// Whether a backend has to be set up: none is there, or one for another mount.
pub open spec fn needs_connection(context: Option<Seq<u8>>, found: Seq<u8>) -> bool {
    !(context matches Some(m) && components(m) == components(found))
}

/// Whether a request is the one for these directories of a mount, by their names
/// from its root.
pub open spec fn is_request(
    r: Request,
    choice: ImplChoice,
    context: Option<Seq<u8>>,
    found: Seq<u8>,
    directories: Seq<Seq<u8>>,
    config: Config,
) -> bool {
    &&& r.mountpoint@ == found
    &&& match r.connection {
        Some(c) => needs_connection(context, found) && connects(c, choice, found),
        None => !needs_connection(context, found),
    }
    &&& paths_view(r.directories@) == directories
    &&& r.mask.bits == (if config.format == Format::Long {
        listed_attributes() | ATTR_NAMED_ATTR
    } else {
        listed_attributes()
    })
}

pub open spec fn context_view(context: Option<&[u8]>) -> Option<Seq<u8>> {
    match context {
        Some(m) => Some(m@),
        None => None,
    }
}

fn request(
    choice: ImplChoice,
    context: Option<&[u8]>,
    found: Vec<u8>,
    directories: Vec<Vec<u8>>,
    config: &Config,
) -> (r: Request)
    ensures
        is_request(
            r,
            choice,
            context_view(context),
            found@,
            paths_view(directories@),
            *config,
        ),
{
    let there = match context {
        Some(m) => same_path(m, found.as_slice()),
        None => false,
    };
    let connection = if there {
        None
    } else {
        match make_ctx(Some(choice), found.as_slice()) {
            Ok(c) => Some(c),
            Err(_) => None,
        }
    };
    Request { connection, mountpoint: found, directories, mask: full_mask(config) }
}

pub open spec fn paths_view(paths: Seq<Vec<u8>>) -> Seq<Seq<u8>> {
    Seq::new(paths.len(), |i: int| paths[i]@)
}

/// The names of directories from the root of the mount.
pub fn vf_paths(mountpoint: &[u8], dirs: &Vec<Vec<u8>>) -> (r: Vec<Vec<u8>>)
    ensures
        r@.len() == dirs@.len(),
        forall|i: int|
            0 <= i < r@.len() ==> (#[trigger] r@[i])@ == vf_path_spec(mountpoint@, dirs@[i]@),
{
    let mut out: Vec<Vec<u8>> = Vec::new();
    let n: usize = dirs.len();
    let mut i: usize = 0;
    while i < n
        invariant
            n == dirs@.len(),
            i <= n,
            out@.len() == i,
            forall|k: int|
                0 <= k < i ==> (#[trigger] out@[k])@ == vf_path_spec(mountpoint@, dirs@[k]@),
        decreases n - i,
    {
        out.push(vf_path(mountpoint, dirs[i].as_slice()));
        i = i + 1;
    }
    out
}

/// What to ask the backend to list one directory, given by its canonical path;
/// nothing where no backend is chosen or the directory is on no NFS mount.
/// `context` is the mount point that a backend already serves.
pub fn try_open_vf(
    env: &Environment,
    canonical: &[u8],
    context: Option<&[u8]>,
    config: &Config,
) -> (r: Option<Request>)
    ensures
        match (env.choice(), env.mountpoint(canonical@)) {
            (Some(choice), Some(found)) => r matches Some(q) && is_request(
                q,
                choice,
                context_view(context),
                found,
                seq![vf_path_spec(found, canonical@)],
                *config,
            ),
            _ => r is None,
        },
{
    let choice = match impl_choice(env.implementation) {
        Some(c) => c,
        None => {
            return None;
        },
    };
    let found = match env.find_mountpoint(canonical) {
        Some(m) => m,
        None => {
            return None;
        },
    };
    let mut directories: Vec<Vec<u8>> = Vec::new();
    directories.push(vf_path(found.as_slice(), canonical));
    assert(paths_view(directories@) =~= seq![vf_path_spec(found@, canonical@)]);
    Some(request(choice, context, found, directories, config))
}

/// What to ask the backend to walk the tree below a directory, given by its
/// canonical path.
pub fn try_walk_vf(
    env: &Environment,
    canonical: &[u8],
    context: Option<&[u8]>,
    config: &Config,
) -> (r: Option<Request>)
    ensures
        match (env.choice(), env.mountpoint(canonical@)) {
            (Some(choice), Some(found)) => r matches Some(q) && is_request(
                q,
                choice,
                context_view(context),
                found,
                seq![vf_path_spec(found, canonical@)],
                *config,
            ),
            _ => r is None,
        },
{
    try_open_vf(env, canonical, context, config)
}

/// Whether a directory did not come before.
pub open spec fn is_new(vpaths: Seq<Seq<u8>>, i: int) -> bool {
    forall|j: int| 0 <= j < i ==> components(#[trigger] vpaths[j]) != components(vpaths[i])
}

spec fn comes_before(vpaths: Seq<Seq<u8>>, i: int, key: Seq<Component>) -> bool {
    exists|j: int| 0 <= j < i && components(#[trigger] vpaths[j]) == key
}

/// The places at which directories come up for the first time.
pub open spec fn new_places(vpaths: Seq<Seq<u8>>) -> Seq<int> {
    set_places(Seq::new(vpaths.len(), |i: int| is_new(vpaths, i)))
}

/// The directories of a batch, each once.
pub open spec fn each_once(vpaths: Seq<Seq<u8>>) -> Seq<Seq<u8>> {
    new_places(vpaths).map_values(|i: int| vpaths[i])
}

/// Every directory of a batch is asked for, and none twice.
pub proof fn law_each_directory_is_requested_once(vpaths: Seq<Seq<u8>>)
    ensures
        forall|i: int, j: int|
            0 <= i < j < each_once(vpaths).len() ==> components(#[trigger] each_once(vpaths)[i])
                != components(#[trigger] each_once(vpaths)[j]),
        forall|i: int|
            0 <= i < vpaths.len() ==> is_requested(each_once(vpaths), #[trigger] vpaths[i]),
{
    let flags = Seq::new(vpaths.len(), |i: int| is_new(vpaths, i));
    let places = new_places(vpaths);
    lemma_set_places(flags);
    assert forall|i: int, j: int| 0 <= i < j < each_once(vpaths).len() implies components(
        #[trigger] each_once(vpaths)[i],
    ) != components(#[trigger] each_once(vpaths)[j]) by {
        assert(places[i] < places[j]);
        assert(flags[places[j]]);
    }
    assert forall|i: int| 0 <= i < vpaths.len() implies is_requested(
        each_once(vpaths),
        #[trigger] vpaths[i],
    ) by {
        lemma_first_of_its_path(vpaths, i);
        let p = choose|p: int|
            0 <= p <= i && #[trigger] is_new(vpaths, p) && components(vpaths[p]) == components(
                vpaths[i],
            );
        assert(flags[p]);
        let k = choose|k: int| 0 <= k < places.len() && places[k] == p;
        assert(components(each_once(vpaths)[k]) == components(vpaths[i]));
    }
}

/// Whether a directory is among those that are asked for.
pub open spec fn is_requested(directories: Seq<Seq<u8>>, vpath: Seq<u8>) -> bool {
    exists|k: int|
        0 <= k < directories.len() && components(#[trigger] directories[k]) == components(vpath)
}

proof fn lemma_first_of_its_path(vpaths: Seq<Seq<u8>>, i: int)
    requires
        0 <= i < vpaths.len(),
    ensures
        exists|p: int|
            0 <= p <= i && #[trigger] is_new(vpaths, p) && components(vpaths[p]) == components(
                vpaths[i],
            ),
    decreases i,
{
    if !is_new(vpaths, i) {
        let j = choose|j: int|
            0 <= j < i && components(#[trigger] vpaths[j]) == components(vpaths[i]);
        lemma_first_of_its_path(vpaths, j);
    }
}

fn find_new_places(vpaths: &Vec<Vec<u8>>) -> (r: Vec<usize>)
    ensures
        r@.len() == new_places(paths_view(vpaths@)).len(),
        forall|k: int|
            0 <= k < r@.len() ==> #[trigger] r@[k] == new_places(paths_view(vpaths@))[k],
        forall|k: int| 0 <= k < r@.len() ==> #[trigger] r@[k] < vpaths@.len(),
{
    let ghost vp = paths_view(vpaths@);
    let ghost flags = Seq::new(vp.len(), |i: int| is_new(vp, i));
    let mut out: Vec<usize> = Vec::new();
    let mut seen: PathMap<()> = PathMap::new();
    let n: usize = vpaths.len();
    let mut i: usize = 0;
    assert(flags.take(0) =~= Seq::empty());
    while i < n
        invariant
            n == vpaths@.len(),
            vp == paths_view(vpaths@),
            forall|k: Seq<Component>| #[trigger]
                seen@.dom().contains(k) <==> comes_before(vp, i as int, k),
            flags == Seq::new(vp.len(), |i: int| is_new(vp, i)),
            i <= n,
            out@.len() == set_places(flags.take(i as int)).len(),
            forall|k: int|
                0 <= k < out@.len() ==> #[trigger] out@[k] == set_places(flags.take(i as int))[k],
            forall|k: int| 0 <= k < out@.len() ==> #[trigger] out@[k] < n,
        decreases n - i,
    {
        assert(flags.take(i + 1).drop_last() =~= flags.take(i as int));
        let ghost known = seen@;
        let key = vpaths[i].as_slice();
        let fresh = !seen.contains(key);
        assert(vp[i as int] == vpaths@[i as int]@);
        proof {
            assert(comes_before(vp, i as int, components(key@)) == !is_new(vp, i as int));
        }
        if fresh {
            out.push(i);
            seen.insert(copy_bytes(key), ());
        }
        proof {
            assert forall|k: Seq<Component>| #[trigger]
                seen@.dom().contains(k) <==> comes_before(vp, i + 1, k) by {
                assert(known.dom().contains(k) <==> comes_before(vp, i as int, k));
                if comes_before(vp, i as int, k) {
                    let j = choose|j: int| 0 <= j < i && components(#[trigger] vp[j]) == k;
                    assert(j < i + 1);
                }
                if k == components(key@) {
                    assert(components(vp[i as int]) == k);
                }
                if comes_before(vp, i + 1, k) && k != components(key@) {
                    let j = choose|j: int| 0 <= j < i + 1 && components(#[trigger] vp[j]) == k;
                    assert(j < i);
                }
            }
        }
        i = i + 1;
    }
    assert(flags.take(n as int) =~= flags);
    out
}

/// Whether every path lies on an NFS mount with the given mount point.
pub open spec fn all_on(env: Environment, canonical: Seq<Vec<u8>>, point: Seq<u8>) -> bool {
    forall|i: int|
        0 <= i < canonical.len() ==> (env.mountpoint((#[trigger] canonical[i])@) matches Some(m)
            && components(m) == components(point))
}

pub open spec fn vpaths_of(point: Seq<u8>, canonical: Seq<Vec<u8>>) -> Seq<Seq<u8>> {
    paths_view(canonical).map_values(|d: Seq<u8>| vf_path_spec(point, d))
}

/// The places that are asked for hold different directories, and all of them.
proof fn lemma_asked(vpaths: Seq<Seq<u8>>, asked: Seq<usize>)
    requires
        asked.len() == new_places(vpaths).len(),
        forall|k: int| 0 <= k < asked.len() ==> #[trigger] asked[k] == new_places(vpaths)[k],
    ensures
        forall|u: int, w: int|
            0 <= u < w < asked.len() ==> components(vpaths[(#[trigger] asked[u]) as int])
                != components(vpaths[(#[trigger] asked[w]) as int]),
        forall|i: int|
            0 <= i < vpaths.len() ==> is_asked(vpaths, asked, components(#[trigger] vpaths[i])),
{
    law_each_directory_is_requested_once(vpaths);
    let each = each_once(vpaths);
    assert forall|u: int, w: int| 0 <= u < w < asked.len() implies components(
        vpaths[(#[trigger] asked[u]) as int],
    ) != components(vpaths[(#[trigger] asked[w]) as int]) by {
        assert(components(each[u]) != components(each[w]));
    }
    assert forall|i: int| 0 <= i < vpaths.len() implies is_asked(
        vpaths,
        asked,
        components(#[trigger] vpaths[i]),
    ) by {
        assert(is_requested(each, vpaths[i]));
        let k = choose|k: int|
            0 <= k < each.len() && components(#[trigger] each[k]) == components(vpaths[i]);
        assert(components(vpaths[asked[k] as int]) == components(vpaths[i]));
    }
}

spec fn is_asked(vpaths: Seq<Seq<u8>>, asked: Seq<usize>, key: Seq<Component>) -> bool {
    exists|u: int|
        0 <= u < asked.len() && components(vpaths[(#[trigger] asked[u]) as int]) == key
}

/// What to ask the backend to list several directories at once, given by their
/// canonical paths; nothing where no backend is chosen, there are fewer than two
/// of them, or they are not all on one NFS mount. A directory that is given more
/// than once is asked for once.
pub fn try_open_many_vf(
    env: &Environment,
    canonical: &Vec<Vec<u8>>,
    context: Option<&[u8]>,
    config: &Config,
) -> (r: Option<Request>)
    ensures
        if canonical@.len() < 2 {
            r is None
        } else {
            match (env.choice(), env.mountpoint(canonical@[0]@)) {
                (Some(choice), Some(found)) => if all_on(*env, canonical@, found) {
                    r matches Some(q) && is_request(
                        q,
                        choice,
                        context_view(context),
                        found,
                        each_once(vpaths_of(found, canonical@)),
                        *config,
                    )
                } else {
                    r is None
                },
                _ => r is None,
            }
        },
{
    let choice = match impl_choice(env.implementation) {
        Some(c) => c,
        None => {
            return None;
        },
    };
    if canonical.len() < 2 {
        return None;
    }
    let found = match env.find_mountpoint(canonical[0].as_slice()) {
        Some(m) => m,
        None => {
            return None;
        },
    };
    let n: usize = canonical.len();
    let mut i: usize = 1;
    while i < n
        invariant
            n == canonical@.len(),
            1 <= i <= n,
            env.mountpoint(canonical@[0]@) == Some(found@),
            forall|k: int|
                0 <= k < i ==> (env.mountpoint((#[trigger] canonical@[k])@) matches Some(m)
                    && components(m) == components(found@)),
            n >= 2,
            env.choice() is Some,
        decreases n - i,
    {
        let same = match env.find_mountpoint(canonical[i].as_slice()) {
            Some(m) => same_path(m.as_slice(), found.as_slice()),
            None => false,
        };
        if !same {
            proof {
                let c = canonical@[i as int]@;
                assert(!(env.mountpoint(c) matches Some(m) && components(m) == components(found@)));
                assert(!all_on(*env, canonical@, found@));
            }
            return None;
        }
        i = i + 1;
    }
    assert(all_on(*env, canonical@, found@));
    let vpaths = vf_paths(found.as_slice(), canonical);
    let ghost vp = vpaths_of(found@, canonical@);
    assert(paths_view(vpaths@) =~= vp);
    let places = find_new_places(&vpaths);
    let m: usize = places.len();
    let mut directories: Vec<Vec<u8>> = Vec::new();
    let mut k: usize = 0;
    while k < m
        invariant
            m == places@.len(),
            k <= m,
            paths_view(vpaths@) == vp,
            m == new_places(vp).len(),
            forall|k: int| 0 <= k < m ==> #[trigger] places@[k] == new_places(vp)[k],
            forall|k: int| 0 <= k < m ==> #[trigger] places@[k] < vpaths@.len(),
            directories@.len() == k,
            forall|l: int| 0 <= l < k ==> (#[trigger] directories@[l])@ == each_once(vp)[l],
        decreases m - k,
    {
        let at: usize = places[k];
        assert(vp[at as int] == vpaths@[at as int]@);
        directories.push(copy_bytes(vpaths[at].as_slice()));
        k = k + 1;
    }
    assert(paths_view(directories@) =~= each_once(vp));
    Some(request(choice, context, found, directories, config))
}

// ---------------------------------------------------------------------------
// What the backend answers
// ---------------------------------------------------------------------------

/// Whether an entry of an open directory is the one that a report stands for.
pub open spec fn is_reported(e: LsDirEntry, dir: Seq<u8>, a: VfAttrs) -> bool {
    &&& e matches LsDirEntry::Vf { path, name, attrs }
    &&& name@ == vf_name(a)
    &&& path@ == join_spec(dir, vf_name(a))
    &&& same_attrs(a, attrs)
}

/// Whether an open directory holds exactly what was reported.
pub open spec fn holds_reports(rd: LsReadDir, dir: Seq<u8>, reports: Seq<VfAttrs>) -> bool {
    &&& rd@.len() == reports.len()
    &&& forall|k: int|
        0 <= k < reports.len() ==> (#[trigger] rd@[k] matches Ok(e) && is_reported(
            e,
            dir,
            reports[k],
        ))
}

fn reported_entry(dir: &[u8], a: &VfAttrs) -> (r: LsDirEntry)
    ensures
        is_reported(r, dir@, *a),
{
    let name = name_of(a);
    let path = join(dir, name.as_slice());
    LsDirEntry::Vf { path, name, attrs: a.duplicate() }
}

/// The open directory that the reports of the backend make.
pub fn opened(dir: &[u8], reports: &Vec<VfAttrs>) -> (r: LsReadDir)
    ensures
        holds_reports(r, dir@, reports@),
{
    let mut out: Vec<LsDirEntry> = Vec::new();
    let n: usize = reports.len();
    let mut i: usize = 0;
    while i < n
        invariant
            n == reports@.len(),
            i <= n,
            out@.len() == i,
            forall|k: int| 0 <= k < i ==> is_reported(#[trigger] out@[k], dir@, reports@[k]),
        decreases n - i,
    {
        out.push(reported_entry(dir, &reports[i]));
        i = i + 1;
    }
    let rd = LsReadDir::from_vf(out);
    proof {
        assert forall|k: int| 0 <= k < reports@.len() implies (#[trigger] rd@[k] matches Ok(e)
            && is_reported(e, dir@, reports@[k])) by {
            assert(is_reported(out@[k], dir@, reports@[k]));
        }
    }
    rd
}

/// The tree that the backend walked from `root`, by local names. It walked it by
/// the canonical path of the root.
pub fn kernel_tree(mountpoint: &[u8], root: &[u8], canonical: &[u8], tree: Vec<WalkEntry>) -> (r:
    Vec<WalkEntry>)
    ensures
        r@.len() == tree@.len(),
        forall|i: int|
            0 <= i < r@.len() ==> (#[trigger] r@[i]).path@ == walked_path_spec(
                mountpoint@,
                root@,
                canonical@,
                tree@[i].path@,
            ) && r@[i].entries == tree@[i].entries,
{
    let ghost all = tree@;
    let mut tree = tree;
    let n: usize = tree.len();
    let mut i: usize = 0;
    while i < n
        invariant
            n == all.len(),
            tree@.len() == n,
            i <= n,
            forall|k: int|
                0 <= k < i ==> (#[trigger] tree@[k]).path@ == walked_path_spec(
                    mountpoint@,
                    root@,
                    canonical@,
                    all[k].path@,
                ) && tree@[k].entries == all[k].entries,
            forall|k: int| i <= k < n ==> #[trigger] tree@[k] == all[k],
        decreases n - i,
    {
        let ghost sofar = tree@;
        let path = walked_path(mountpoint, root, canonical, tree[i].path.as_slice());
        tree[i].path = path;
        assert forall|k: int| 0 <= k < n && k != i implies #[trigger] tree@[k] == sofar[k] by {}
        i = i + 1;
    }
    tree
}

// ---------------------------------------------------------------------------
// Several directories at once
// ---------------------------------------------------------------------------

/// A report of the backend, with the directory that it was made for.
pub struct Delivery {
    pub attrs: VfAttrs,
    pub dir: Vec<u8>,
}

/// What was reported of a directory, in the order of the reports.
pub open spec fn gathered(vpath: Seq<u8>, delivered: Seq<Delivery>) -> Seq<VfAttrs>
    decreases delivered.len(),
{
    if delivered.len() == 0 {
        Seq::empty()
    } else {
        let before = gathered(vpath, delivered.drop_last());
        if components(delivered.last().dir@) == components(vpath) {
            before.push(delivered.last().attrs)
        } else {
            before
        }
    }
}

/// The first place that counts as not listed: where there was a failure, that of
/// the directory that it struck. A failure that names none struck the first, and
/// one that names none of those asked for struck the last.
pub open spec fn first_unlisted(vpaths: Seq<Seq<u8>>, error: Option<VfError>) -> int {
    match error {
        None => vpaths.len() as int,
        Some(e) => {
            let asked = new_places(vpaths);
            let at = match e.index {
                Some(i) => i as int,
                None => 0,
            };
            if asked.len() == 0 {
                0
            } else if at < asked.len() {
                asked[at]
            } else {
                asked[asked.len() - 1]
            }
        },
    }
}

/// The places of the reports on a directory.
spec fn report_places(vpath: Seq<u8>, delivered: Seq<Delivery>) -> Seq<int>
    decreases delivered.len(),
{
    if delivered.len() == 0 {
        Seq::empty()
    } else {
        let before = report_places(vpath, delivered.drop_last());
        if components(delivered.last().dir@) == components(vpath) {
            before.push(delivered.len() - 1)
        } else {
            before
        }
    }
}

proof fn lemma_report_places(vpath: Seq<u8>, delivered: Seq<Delivery>)
    ensures
        report_places(vpath, delivered).len() == gathered(vpath, delivered).len(),
        forall|k: int|
            0 <= k < gathered(vpath, delivered).len() ==> {
                &&& 0 <= #[trigger] report_places(vpath, delivered)[k] < delivered.len()
                &&& gathered(vpath, delivered)[k] == delivered[report_places(
                    vpath,
                    delivered,
                )[k]].attrs
            },
    decreases delivered.len(),
{
    if delivered.len() > 0 {
        let front = delivered.drop_last();
        lemma_report_places(vpath, front);
        let few = report_places(vpath, front);
        let all = report_places(vpath, delivered);
        assert forall|k: int| 0 <= k < all.len() implies {
            &&& 0 <= #[trigger] all[k] < delivered.len()
            &&& gathered(vpath, delivered)[k] == delivered[all[k]].attrs
        } by {
            if k < few.len() {
                assert(all[k] == few[k]);
                assert(front[few[k]] == delivered[few[k]]);
            }
        }
    }
}

proof fn lemma_same_reports(a: Seq<u8>, b: Seq<u8>, delivered: Seq<Delivery>)
    requires
        components(a) == components(b),
    ensures
        report_places(a, delivered) == report_places(b, delivered),
        gathered(a, delivered) == gathered(b, delivered),
    decreases delivered.len(),
{
    if delivered.len() > 0 {
        lemma_same_reports(a, b, delivered.drop_last());
    }
}

spec fn numbers_view(v: Seq<usize>) -> Seq<int> {
    Seq::new(v.len(), |k: int| v[k] as int)
}

/// The places of the directories that are asked for, by path.
fn slots_of(vpaths: &Vec<Vec<u8>>, asked: &Vec<usize>) -> (r: PathMap<usize>)
    requires
        forall|u: int| 0 <= u < asked@.len() ==> (#[trigger] asked@[u]) < vpaths@.len(),
        forall|u: int, w: int|
            0 <= u < w < asked@.len() ==> components(vpaths@[(#[trigger] asked@[u]) as int]@)
                != components(vpaths@[(#[trigger] asked@[w]) as int]@),
    ensures
        forall|key: Seq<Component>| #[trigger]
            r@.dom().contains(key) ==> r@[key] < asked@.len() && components(
                vpaths@[asked@[r@[key] as int] as int]@,
            ) == key,
        forall|u: int|
            0 <= u < asked@.len() ==> r@.dom().contains(
                components(vpaths@[(#[trigger] asked@[u]) as int]@),
            ),
{
    let mut slots: PathMap<usize> = PathMap::new();
    let n: usize = asked.len();
    let mut u: usize = 0;
    while u < n
        invariant
            n == asked@.len(),
            u <= n,
            forall|u: int| 0 <= u < n ==> (#[trigger] asked@[u]) < vpaths@.len(),
            forall|u: int, w: int|
                0 <= u < w < n ==> components(vpaths@[(#[trigger] asked@[u]) as int]@)
                    != components(vpaths@[(#[trigger] asked@[w]) as int]@),
            forall|key: Seq<Component>| #[trigger]
                slots@.dom().contains(key) ==> slots@[key] < u && components(
                    vpaths@[asked@[slots@[key] as int] as int]@,
                ) == key,
            forall|w: int|
                0 <= w < u ==> slots@.dom().contains(
                    components(vpaths@[(#[trigger] asked@[w]) as int]@),
                ),
        decreases n - u,
    {
        slots.insert(copy_bytes(vpaths[asked[u]].as_slice()), u);
        u = u + 1;
    }
    slots
}

/// The places of the reports on each of the directories that are asked for.
fn sort_reports(
    vpaths: &Vec<Vec<u8>>,
    asked: &Vec<usize>,
    slots: &PathMap<usize>,
    delivered: &Vec<Delivery>,
) -> (r: Vec<Vec<usize>>)
    requires
        forall|u: int| 0 <= u < asked@.len() ==> (#[trigger] asked@[u]) < vpaths@.len(),
        forall|key: Seq<Component>| #[trigger]
            slots@.dom().contains(key) ==> slots@[key] < asked@.len() && components(
                vpaths@[asked@[slots@[key] as int] as int]@,
            ) == key,
        forall|u: int|
            0 <= u < asked@.len() ==> slots@.dom().contains(
                components(vpaths@[(#[trigger] asked@[u]) as int]@),
            ) && slots@[components(vpaths@[asked@[u] as int]@)] == u,
    ensures
        r@.len() == asked@.len(),
        forall|u: int|
            0 <= u < r@.len() ==> numbers_view((#[trigger] r@[u])@) == report_places(
                vpaths@[asked@[u] as int]@,
                delivered@,
            ),
{
    let m: usize = asked.len();
    let mut groups: Vec<Vec<usize>> = Vec::new();
    let mut u: usize = 0;
    while u < m
        invariant
            u <= m,
            groups@.len() == u,
            forall|k: int| 0 <= k < u ==> (#[trigger] groups@[k])@.len() == 0,
        decreases m - u,
    {
        groups.push(Vec::new());
        u = u + 1;
    }
    let n: usize = delivered.len();
    let mut d: usize = 0;
    proof {
        assert(delivered@.take(0) =~= Seq::empty());
        assert forall|k: int| 0 <= k < m implies numbers_view((#[trigger] groups@[k])@)
            == report_places(vpaths@[asked@[k] as int]@, delivered@.take(0)) by {
            assert(numbers_view(groups@[k]@) =~= Seq::empty());
        }
    }
    while d < n
        invariant
            n == delivered@.len(),
            d <= n,
            m == asked@.len(),
            groups@.len() == m,
            forall|u: int| 0 <= u < m ==> (#[trigger] asked@[u]) < vpaths@.len(),
            forall|key: Seq<Component>| #[trigger]
                slots@.dom().contains(key) ==> slots@[key] < asked@.len() && components(
                    vpaths@[asked@[slots@[key] as int] as int]@,
                ) == key,
            forall|u: int|
                0 <= u < m ==> slots@.dom().contains(
                    components(vpaths@[(#[trigger] asked@[u]) as int]@),
                ) && slots@[components(vpaths@[asked@[u] as int]@)] == u,
            forall|u: int|
                0 <= u < m ==> numbers_view((#[trigger] groups@[u])@) == report_places(
                    vpaths@[asked@[u] as int]@,
                    delivered@.take(d as int),
                ),
        decreases n - d,
    {
        let ghost before = groups@;
        let ghost key = components(delivered@[d as int].dir@);
        assert(delivered@.take(d + 1).drop_last() =~= delivered@.take(d as int));
        if let Some(slot) = slots.get(delivered[d].dir.as_slice()) {
            let at: usize = *slot;
            let mut group: Vec<usize> = Vec::new();
            std::mem::swap(&mut group, &mut groups[at]);
            let ghost sofar = group@;
            group.push(d);
            assert(numbers_view(group@) =~= numbers_view(sofar).push(d as int));
            groups.set(at, group);
        }
        proof {
            assert forall|u: int| 0 <= u < m implies numbers_view((#[trigger] groups@[u])@)
                == report_places(vpaths@[asked@[u] as int]@, delivered@.take(d + 1)) by {
                let mine = components(vpaths@[asked@[u] as int]@);
                assert(slots@[mine] == u);
                if mine != key {
                    assert(groups@[u] == before[u]);
                }
            }
        }
        d = d + 1;
    }
    assert(delivered@.take(n as int) =~= delivered@);
    groups
}

/// The open directory that the reports on it make.
fn opened_from(dir: &[u8], vpath: &[u8], places: &Vec<usize>, delivered: &Vec<Delivery>) -> (r:
    LsReadDir)
    requires
        numbers_view(places@) == report_places(vpath@, delivered@),
    ensures
        holds_reports(r, dir@, gathered(vpath@, delivered@)),
{
    let ghost reports = gathered(vpath@, delivered@);
    proof {
        lemma_report_places(vpath@, delivered@);
    }
    let mut out: Vec<LsDirEntry> = Vec::new();
    let n: usize = places.len();
    let mut i: usize = 0;
    while i < n
        invariant
            n == places@.len(),
            n == reports.len(),
            i <= n,
            numbers_view(places@) == report_places(vpath@, delivered@),
            reports == gathered(vpath@, delivered@),
            forall|k: int|
                0 <= k < reports.len() ==> {
                    &&& 0 <= #[trigger] report_places(vpath@, delivered@)[k] < delivered@.len()
                    &&& reports[k] == delivered@[report_places(vpath@, delivered@)[k]].attrs
                },
            out@.len() == i,
            forall|k: int|
                0 <= k < i ==> is_reported(#[trigger] out@[k], dir@, reports[k]),
        decreases n - i,
    {
        assert(numbers_view(places@)[i as int] == places@[i as int]);
        out.push(reported_entry(dir, &delivered[places[i]].attrs));
        i = i + 1;
    }
    let rd = LsReadDir::from_vf(out);
    proof {
        assert forall|k: int| 0 <= k < reports.len() implies (#[trigger] rd@[k] matches Ok(e)
            && is_reported(e, dir@, reports[k])) by {
            assert(is_reported(out@[k], dir@, reports[k]));
        }
    }
    rd
}

/// The directories of a batch, as they were given, each with its entries. They
/// are asked for by their canonical paths, each once; `delivered` is what the
/// backend reported, in its order, and `error` how it ended. After a failure the
/// directories before the one that it struck are kept; that one and those after
/// it are to be opened one by one.
pub fn ctx_open_many(
    mountpoint: &[u8],
    dirs: &Vec<Vec<u8>>,
    canonical: &Vec<Vec<u8>>,
    delivered: &Vec<Delivery>,
    error: Option<VfError>,
) -> (r: Vec<Option<LsReadDir>>)
    requires
        dirs@.len() == canonical@.len(),
    ensures
        r@.len() == dirs@.len(),
        forall|i: int|
            0 <= i < r@.len() ==> match #[trigger] r@[i] {
                Some(rd) => {
                    &&& i < first_unlisted(vpaths_of(mountpoint@, canonical@), error)
                    &&& holds_reports(
                        rd,
                        dirs@[i]@,
                        gathered(vf_path_spec(mountpoint@, canonical@[i]@), delivered@),
                    )
                },
                None => i >= first_unlisted(vpaths_of(mountpoint@, canonical@), error),
            },
{
    let vpaths = vf_paths(mountpoint, canonical);
    let ghost vp = vpaths_of(mountpoint@, canonical@);
    assert(paths_view(vpaths@) =~= vp);
    let n: usize = dirs.len();
    let asked = find_new_places(&vpaths);
    proof {
        lemma_asked(vp, asked@);
    }
    let slots = slots_of(&vpaths, &asked);
    proof {
        assert forall|u: int| 0 <= u < asked@.len() implies slots@.dom().contains(
            components(vpaths@[(#[trigger] asked@[u]) as int]@),
        ) && slots@[components(vpaths@[asked@[u] as int]@)] == u by {
            let key = components(vpaths@[asked@[u] as int]@);
            let w = slots@[key] as int;
            assert(slots@.dom().contains(key));
            assert(components(vpaths@[asked@[w] as int]@) == key);
        }
    }
    proof {
        assert forall|k: int| 0 <= k < n implies slots@.dom().contains(
            components((#[trigger] vpaths@[k])@),
        ) by {
            let key = components(vp[k]);
            assert(is_asked(vp, asked@, key));
            let u = choose|u: int|
                0 <= u < asked@.len() && components(vp[(#[trigger] asked@[u]) as int]) == key;
            assert(vp[asked@[u] as int] == vpaths@[asked@[u] as int]@);
        }
    }
    let groups = sort_reports(&vpaths, &asked, &slots, delivered);
    let end: usize = match error {
        None => n,
        Some(e) => {
            let m: usize = asked.len();
            let at: usize = match e.index {
                Some(i) => i,
                None => 0,
            };
            if m == 0 {
                0
            } else if at < m {
                asked[at]
            } else {
                asked[m - 1]
            }
        },
    };
    let mut out: Vec<Option<LsReadDir>> = Vec::new();
    let mut i: usize = 0;
    while i < n
        invariant
            n == dirs@.len(),
            n == canonical@.len(),
            n == vpaths@.len(),
            forall|i: int|
                0 <= i < n ==> (#[trigger] vpaths@[i])@ == vf_path_spec(
                    mountpoint@,
                    canonical@[i]@,
                ),
            i <= n,
            end == first_unlisted(vp, error),
            vp == vpaths_of(mountpoint@, canonical@),
            paths_view(vpaths@) == vp,
            groups@.len() == asked@.len(),
            forall|u: int| 0 <= u < asked@.len() ==> (#[trigger] asked@[u]) < vpaths@.len(),
            forall|key: Seq<Component>| #[trigger]
                slots@.dom().contains(key) ==> slots@[key] < asked@.len() && components(
                    vpaths@[asked@[slots@[key] as int] as int]@,
                ) == key,
            forall|k: int|
                0 <= k < n ==> slots@.dom().contains(components((#[trigger] vpaths@[k])@)),
            forall|u: int|
                0 <= u < groups@.len() ==> numbers_view((#[trigger] groups@[u])@) == report_places(
                    vpaths@[asked@[u] as int]@,
                    delivered@,
                ),
            out@.len() == i,
            forall|k: int|
                0 <= k < i ==> match #[trigger] out@[k] {
                    Some(rd) => k < end && holds_reports(
                        rd,
                        dirs@[k]@,
                        gathered(vf_path_spec(mountpoint@, canonical@[k]@), delivered@),
                    ),
                    None => k >= end,
                },
        decreases n - i,
    {
        let slot = slots.get(vpaths[i].as_slice());
        assert(slots@.dom().contains(components(vpaths@[i as int]@)));
        if let (true, Some(slot)) = (i < end, slot) {
            let at: usize = *slot;
            proof {
                lemma_same_reports(
                    vpaths@[asked@[at as int] as int]@,
                    vpaths@[i as int]@,
                    delivered@,
                );
            }
            out.push(
                Some(
                    opened_from(
                        dirs[i].as_slice(),
                        vpaths[i].as_slice(),
                        &groups[at],
                        delivered,
                    ),
                ),
            );
        } else {
            out.push(None);
        }
        i = i + 1;
    }
    out
}

/// Every place of a batch before the failure, if there was one, holds exactly
/// the reports that were made for its directory, in their order.
pub proof fn law_reports_reach_their_directory(vpath: Seq<u8>, delivered: Seq<Delivery>)
    ensures
        gathered(vpath, delivered) == delivered.filter(
            |d: Delivery| components(d.dir@) == components(vpath),
        ).map_values(|d: Delivery| d.attrs),
    decreases delivered.len(),
{
    let mine = |d: Delivery| components(d.dir@) == components(vpath);
    let attrs = |d: Delivery| d.attrs;
    reveal(Seq::filter);
    if delivered.len() > 0 {
        law_reports_reach_their_directory(vpath, delivered.drop_last());
        let last = delivered.last();
        if mine(last) {
            assert(delivered.filter(mine) =~= delivered.drop_last().filter(mine).push(last));
        }
    }
    assert(gathered(vpath, delivered) =~= delivered.filter(mine).map_values(attrs));
}

} // verus!
