//! Copies that the server is asked to make in one batch. It makes them under
//! temporary names; each is moved to its place when its turn comes.
use crate::meta::IoFailure;
use crate::mount::{
    destination_parent, mounted_spec, mounted_vf_path, new_mounted_vf_path, Mount, VfPathError,
};
use crate::path::{
    components, copy_bytes, file_name, file_name_spec, is_plain_name, join, join_spec,
    lemma_child_path, lemma_file_name_is_plain, parent_spec, Component, SLASH,
};
use crate::pathmap::PathMap;
use crate::text::{decimal, lemma_decimal, push_decimal};
use vstd::prelude::*;

verus! {

/// How many copies the server is asked for at once, at most.
pub const MAX_SERVER_COPY_BATCH_FILES: usize = 4096;

// ---------------------------------------------------------------------------
// Temporary names
// ---------------------------------------------------------------------------

/// The bytes of `.vfsi-cp-`.
pub open spec fn temp_prefix() -> Seq<u8> {
    seq![46u8, 118u8, 102u8, 115u8, 105u8, 45u8, 99u8, 112u8, 45u8]
}

pub const DASH: u8 = 45;

/// The temporary name of the copy at `i`: `.vfsi-cp-`, then the process, a
/// number that differs between runs, and the place of the copy.
pub open spec fn temp_name_spec(pid: u32, nonce: u128, i: int) -> Seq<u8> {
    (temp_prefix() + decimal(pid as nat)).push(DASH) + decimal(nonce as nat).push(DASH) + decimal(
        i as nat,
    )
}

pub fn temp_name(pid: u32, nonce: u128, i: usize) -> (r: Vec<u8>)
    ensures
        r@ == temp_name_spec(pid, nonce, i as int),
{
    let prefix: [u8; 9] = [46, 118, 102, 115, 105, 45, 99, 112, 45];
    assert(prefix@ =~= temp_prefix());
    let mut out: Vec<u8> = copy_bytes(&prefix);
    push_decimal(&mut out, pid as u128);
    out.push(DASH);
    push_decimal(&mut out, nonce);
    out.push(DASH);
    push_decimal(&mut out, i as u128);
    assert(out@ =~= temp_name_spec(pid, nonce, i as int));
    out
}

/// Temporary names are plain names, and the copies of one batch have different
/// ones.
pub proof fn law_temp_names_differ(pid: u32, nonce: u128, i: int, j: int)
    requires
        0 <= i,
        0 <= j,
    ensures
        is_plain_name(temp_name_spec(pid, nonce, i)),
        temp_name_spec(pid, nonce, i) == temp_name_spec(pid, nonce, j) ==> i == j,
{
    let front = (temp_prefix() + decimal(pid as nat)).push(DASH) + decimal(nonce as nat).push(DASH);
    let a = decimal(i as nat);
    let b = decimal(j as nat);
    lemma_decimal(pid as nat, 0);
    lemma_decimal(nonce as nat, 0);
    lemma_decimal(i as nat, j as nat);
    lemma_decimal(j as nat, i as nat);
    let t = temp_name_spec(pid, nonce, i);
    assert(t =~= front + a);
    assert(!t.contains(SLASH)) by {
        assert forall|k: int| 0 <= k < t.len() implies t[k] != SLASH by {
            let p = temp_prefix();
            let d = decimal(pid as nat);
            let e = decimal(nonce as nat);
            if k < p.len() {
                assert(t[k] == p[k]);
            } else if k < p.len() + d.len() {
                assert(t[k] == d[k - p.len()]);
            } else if k == p.len() + d.len() {
                assert(t[k] == DASH);
            } else if k < p.len() + d.len() + 1 + e.len() {
                assert(t[k] == e[k - p.len() - d.len() - 1]);
            } else if k == p.len() + d.len() + 1 + e.len() {
                assert(t[k] == DASH);
            } else {
                assert(t[k] == a[k - p.len() - d.len() - e.len() - 2]);
            }
        }
    }
    if t == temp_name_spec(pid, nonce, j) {
        assert(front + a == front + b);
        assert(a =~= (front + a).skip(front.len() as int));
        assert(b =~= (front + b).skip(front.len() as int));
    }
}

// ---------------------------------------------------------------------------
// The plan
// ---------------------------------------------------------------------------

/// A source of a copy, with what was found out about it.
pub struct CopySource {
    pub path: Vec<u8>,
    pub is_file: bool,
    /// The NFS mount that it lies on, if any.
    pub mount: Option<Mount>,
    /// Its canonical form.
    pub canonical: Result<Vec<u8>, IoFailure>,
    /// Whether the place that it would be copied to is taken.
    pub dest_exists: bool,
}

/// The directory that sources are copied to.
pub struct CopyTarget {
    pub path: Vec<u8>,
    pub is_dir: bool,
    /// The NFS mount that it lies on, if any.
    pub mount: Option<Mount>,
    /// Its canonical form.
    pub canonical: Result<Vec<u8>, IoFailure>,
}

/// Why a batch failed.
#[derive(Clone, Copy, Debug, PartialEq, Eq, Structural)]
pub enum CopyError {
    Io(IoFailure),
    Path(VfPathError),
}

/// A copy that the server made under a temporary name.
#[derive(Debug)]
pub struct PreparedCopy {
    pub dest: Vec<u8>,
    pub temp: Vec<u8>,
}

/// The place of a source in the target; none for a source without a name.
pub open spec fn dest_of(s: CopySource, target: Seq<u8>) -> Option<Seq<u8>> {
    match file_name_spec(s.path@) {
        Some(name) => Some(join_spec(target, name)),
        None => None,
    }
}

/// Whether an earlier source has the same place in the target.
pub open spec fn dest_taken(sources: Seq<CopySource>, i: int, target: Seq<u8>) -> bool {
    exists|j: int|
        0 <= j < i && dest_of(#[trigger] sources[j], target) is Some && components(
            dest_of(sources[j], target)->0,
        ) == components(dest_of(sources[i], target)->0)
}

/// What becomes of a batch at one of its sources.
pub enum Verdict {
    /// The server is not asked.
    Refused,
    Failed(CopyError),
    /// A copy, by the server's names of source and destination.
    Pair(Seq<u8>, Seq<u8>),
}

/// The server's name of the temporary file.
pub open spec fn temp_verdict(source: Seq<u8>, temp: Seq<u8>, target: CopyTarget) -> Verdict {
    if parent_spec(temp) is None {
        Verdict::Failed(CopyError::Path(VfPathError::NoParent))
    } else {
        match target.canonical {
            Err(e) => Verdict::Failed(CopyError::Io(e)),
            Ok(dir) => match file_name_spec(temp) {
                None => Verdict::Failed(CopyError::Path(VfPathError::NoFileName)),
                Some(name) => match mounted_spec(join_spec(dir@, name), target.mount->0@) {
                    Some(dst) => Verdict::Pair(source, dst),
                    None => Verdict::Failed(CopyError::Path(VfPathError::OutsideMount)),
                },
            },
        }
    }
}

/// What becomes of a batch at its source `i`. Only regular files on a mount of
/// the target's server are copied, to places that are free and that no earlier
/// source has.
pub open spec fn verdict(
    sources: Seq<CopySource>,
    i: int,
    target: CopyTarget,
    pid: u32,
    nonce: u128,
) -> Verdict {
    let s = sources[i];
    if !s.is_file || s.mount is None || s.mount->0@.server != target.mount->0@.server || dest_of(
        s,
        target.path@,
    ) is None || s.dest_exists || dest_taken(sources, i, target.path@) {
        Verdict::Refused
    } else {
        match s.canonical {
            Err(e) => Verdict::Failed(CopyError::Io(e)),
            Ok(c) => match mounted_spec(c@, s.mount->0@) {
                None => Verdict::Failed(CopyError::Path(VfPathError::OutsideMount)),
                Some(src) => temp_verdict(
                    src,
                    join_spec(target.path@, temp_name_spec(pid, nonce, i)),
                    target,
                ),
            },
        }
    }
}

/// The first source at which a batch ends early, or the number of sources.
pub open spec fn first_stop(
    sources: Seq<CopySource>,
    from: int,
    target: CopyTarget,
    pid: u32,
    nonce: u128,
) -> int
    decreases sources.len() - from,
{
    if from >= sources.len() {
        sources.len() as int
    } else if verdict(sources, from, target, pid, nonce) is Pair {
        first_stop(sources, from + 1, target, pid, nonce)
    } else {
        from
    }
}

/// The copies to ask the server for.
pub struct CopyPlan {
    /// The server's names of each source and of the temporary file.
    pub pairs: Vec<(Vec<u8>, Vec<u8>)>,
    /// The sources, with where they are copied to.
    pub plans: Vec<(Vec<u8>, PreparedCopy)>,
}

/// Whether a plan has the copy for source `i`.
pub open spec fn plans_copy(
    plan: CopyPlan,
    sources: Seq<CopySource>,
    i: int,
    target: CopyTarget,
    pid: u32,
    nonce: u128,
) -> bool {
    &&& verdict(sources, i, target, pid, nonce) == Verdict::Pair(
        plan.pairs@[i].0@,
        plan.pairs@[i].1@,
    )
    &&& plan.plans@[i].0@ == sources[i].path@
    &&& Some(plan.plans@[i].1.dest@) == dest_of(sources[i], target.path@)
    &&& plan.plans@[i].1.temp@ == join_spec(target.path@, temp_name_spec(pid, nonce, i))
}

/// Whether the server is asked at all: copies by the server are enabled, there
/// are at least two sources and not too many, and the target is a directory on
/// an NFS mount.
pub open spec fn asks_server(enabled: bool, count: int, target: CopyTarget) -> bool {
    enabled && 2 <= count <= MAX_SERVER_COPY_BATCH_FILES && target.is_dir && target.mount is Some
}

/// Whether one of the copies goes to this place.
spec fn has_dest(plans: Seq<(Vec<u8>, PreparedCopy)>, key: Seq<Component>) -> bool {
    exists|j: int| 0 <= j < plans.len() && components((#[trigger] plans[j]).1.dest@) == key
}

proof fn lemma_has_dest(plans: Seq<(Vec<u8>, PreparedCopy)>, last: (Vec<u8>, PreparedCopy))
    ensures
        forall|k: Seq<Component>| #[trigger]
            has_dest(plans.push(last), k) <==> has_dest(plans, k) || k == components(last.1.dest@),
{
    let all = plans.push(last);
    assert forall|k: Seq<Component>| #[trigger] has_dest(all, k) <==> has_dest(plans, k) || k
        == components(last.1.dest@) by {
        if has_dest(plans, k) {
            let j = choose|j: int|
                0 <= j < plans.len() && components((#[trigger] plans[j]).1.dest@) == k;
            assert(all[j] == plans[j]);
        }
        if k == components(last.1.dest@) {
            assert(all[plans.len() as int] == last);
        }
        if has_dest(all, k) {
            let j = choose|j: int|
                0 <= j < all.len() && components((#[trigger] all[j]).1.dest@) == k;
            if j < plans.len() {
                assert(plans[j] == all[j]);
            }
        }
    }
}

fn temp_on_server(temp: &[u8], target: &CopyTarget, mount: &Mount) -> (r: Result<Vec<u8>, CopyError>)
    requires
        target.mount == Some(*mount),
    ensures
        forall|source: Seq<u8>|
            #![trigger temp_verdict(source, temp@, *target)]
            match r {
                Ok(p) => temp_verdict(source, temp@, *target) == Verdict::Pair(source, p@),
                Err(e) => temp_verdict(source, temp@, *target) == Verdict::Failed(e),
            },
{
    match destination_parent(temp) {
        Err(e) => Err(CopyError::Path(e)),
        Ok(_) => match &target.canonical {
            Err(e) => Err(CopyError::Io(*e)),
            Ok(dir) => match new_mounted_vf_path(temp, dir.as_slice(), mount) {
                Ok(p) => Ok(p),
                Err(e) => Err(CopyError::Path(e)),
            },
        },
    }
}

/// The copies to ask the server for, if it is asked: all sources, or none.
pub fn prepare_server_copy_batch(
    enabled: bool,
    sources: &Vec<CopySource>,
    target: &CopyTarget,
    pid: u32,
    nonce: u128,
) -> (r: Result<Option<CopyPlan>, CopyError>)
    ensures
        ({
            let stop = first_stop(sources@, 0, *target, pid, nonce);
            if !asks_server(enabled, sources@.len() as int, *target) {
                r matches Ok(None)
            } else if stop < sources@.len() {
                match verdict(sources@, stop, *target, pid, nonce) {
                    Verdict::Failed(e) => r matches Err(f) && f == e,
                    _ => r matches Ok(None),
                }
            } else {
                &&& r matches Ok(Some(plan))
                &&& plan.pairs@.len() == sources@.len()
                &&& plan.plans@.len() == sources@.len()
                &&& forall|i: int|
                    0 <= i < sources@.len() ==> #[trigger] plans_copy(
                        plan,
                        sources@,
                        i,
                        *target,
                        pid,
                        nonce,
                    )
            }
        }),
{
    if !enabled || sources.len() < 2 || sources.len() > MAX_SERVER_COPY_BATCH_FILES || !target.is_dir {
        return Ok(None);
    }
    let target_mount = match &target.mount {
        Some(m) => m,
        None => {
            return Ok(None);
        },
    };
    let n: usize = sources.len();
    let mut pairs: Vec<(Vec<u8>, Vec<u8>)> = Vec::new();
    let mut plans: Vec<(Vec<u8>, PreparedCopy)> = Vec::new();
    let mut seen_destinations: PathMap<()> = PathMap::new();
    let mut i: usize = 0;
    while i < n
        invariant
            n == sources@.len(),
            i <= n,
            target.mount == Some(*target_mount),
            asks_server(enabled, n as int, *target),
            first_stop(sources@, 0, *target, pid, nonce) == first_stop(
                sources@,
                i as int,
                *target,
                pid,
                nonce,
            ),
            pairs@.len() == i,
            plans@.len() == i,
            forall|k: Seq<Component>| #[trigger]
                seen_destinations@.dom().contains(k) <==> has_dest(plans@, k),
            forall|k: int|
                0 <= k < i ==> verdict(sources@, k, *target, pid, nonce) == Verdict::Pair(
                    (#[trigger] pairs@[k]).0@,
                    pairs@[k].1@,
                ),
            forall|k: int|
                0 <= k < i ==> (#[trigger] plans@[k]).0@ == sources@[k].path@ && Some(
                    plans@[k].1.dest@,
                ) == dest_of(sources@[k], target.path@) && plans@[k].1.temp@ == join_spec(
                    target.path@,
                    temp_name_spec(pid, nonce, k),
                ),
        decreases n - i,
    {
        let s = &sources[i];
        if !s.is_file {
            return Ok(None);
        }
        let mount = match &s.mount {
            Some(m) => m,
            None => {
                return Ok(None);
            },
        };
        if mount.server != target_mount.server {
            return Ok(None);
        }
        let name = match file_name(s.path.as_slice()) {
            Some(name) => name,
            None => {
                return Ok(None);
            },
        };
        let dest = join(target.path.as_slice(), name);
        let taken = seen_destinations.contains(dest.as_slice());
        assert(taken == has_dest(plans@, components(dest@)));
        proof {
            assert(taken == dest_taken(sources@, i as int, target.path@)) by {
                if taken {
                    let j = choose|j: int|
                        0 <= j < plans@.len() && components((#[trigger] plans@[j]).1.dest@)
                            == components(dest@);
                    assert(dest_of(sources@[j], target.path@) == Some(plans@[j].1.dest@));
                }
                if dest_taken(sources@, i as int, target.path@) {
                    let j = choose|j: int|
                        0 <= j < i && dest_of(#[trigger] sources@[j], target.path@) is Some
                            && components(dest_of(sources@[j], target.path@)->0) == components(
                            dest_of(sources@[i as int], target.path@)->0,
                        );
                    assert(dest_of(sources@[j], target.path@) == Some(plans@[j].1.dest@));
                }
            }
        }
        if s.dest_exists || taken {
            return Ok(None);
        }
        let temp = join(target.path.as_slice(), temp_name(pid, nonce, i).as_slice());
        let canonical = match &s.canonical {
            Ok(c) => c,
            Err(e) => {
                return Err(CopyError::Io(*e));
            },
        };
        let src = match mounted_vf_path(canonical.as_slice(), mount) {
            Ok(p) => p,
            Err(e) => {
                return Err(CopyError::Path(e));
            },
        };
        let ghost told = temp_verdict(src@, temp@, *target);
        let dst = match temp_on_server(temp.as_slice(), target, target_mount) {
            Ok(p) => p,
            Err(e) => {
                assert(told == Verdict::Failed(e));
                return Err(e);
            },
        };
        assert(told == Verdict::Pair(src@, dst@));
        pairs.push((src, dst));
        seen_destinations.insert(copy_bytes(dest.as_slice()), ());
        let copy = (copy_bytes(s.path.as_slice()), PreparedCopy { dest, temp });
        proof {
            lemma_has_dest(plans@, copy);
        }
        plans.push(copy);
        i = i + 1;
    }
    let plan = CopyPlan { pairs, plans };
    proof {
        assert forall|k: int| 0 <= k < sources@.len() implies #[trigger] plans_copy(
            plan,
            sources@,
            k,
            *target,
            pid,
            nonce,
        ) by {
            assert(plan.pairs@[k] == pairs@[k]);
            assert(plan.plans@[k] == plans@[k]);
        }
    }
    Ok(Some(plan))
}

/// No two copies of a batch get in each other's way: their sources differ, their
/// places differ, their temporary files differ, and all of the last two are
/// entries of the target.
pub proof fn law_planned_copies_are_apart(
    sources: Seq<CopySource>,
    target: CopyTarget,
    pid: u32,
    nonce: u128,
    i: int,
    j: int,
)
    requires
        0 <= i < j < sources.len(),
        verdict(sources, i, target, pid, nonce) is Pair,
        verdict(sources, j, target, pid, nonce) is Pair,
    ensures
        ({
            let dir = components(target.path@);
            let a = components(dest_of(sources[i], target.path@)->0);
            let b = components(dest_of(sources[j], target.path@)->0);
            let s = components(join_spec(target.path@, temp_name_spec(pid, nonce, i)));
            let t = components(join_spec(target.path@, temp_name_spec(pid, nonce, j)));
            &&& components(sources[i].path@) != components(sources[j].path@)
            &&& a != b
            &&& s != t
            &&& a.drop_last() == dir && b.drop_last() == dir
            &&& s.drop_last() == dir && t.drop_last() == dir
        }),
{
    let x = temp_name_spec(pid, nonce, i);
    let y = temp_name_spec(pid, nonce, j);
    law_temp_names_differ(pid, nonce, i, j);
    law_temp_names_differ(pid, nonce, j, i);
    lemma_child_path(target.path@, x);
    lemma_child_path(target.path@, y);
    lemma_file_name_is_plain(sources[i].path@);
    lemma_file_name_is_plain(sources[j].path@);
    let m = file_name_spec(sources[i].path@)->0;
    let n = file_name_spec(sources[j].path@)->0;
    lemma_child_path(target.path@, m);
    lemma_child_path(target.path@, n);
    let dir = components(target.path@);
    assert(dir.push(Component::Normal(x)).drop_last() =~= dir);
    assert(dir.push(Component::Normal(y)).drop_last() =~= dir);
    assert(dir.push(Component::Normal(m)).drop_last() =~= dir);
    assert(dir.push(Component::Normal(n)).drop_last() =~= dir);
    assert(dir.push(Component::Normal(x)).last() != dir.push(Component::Normal(y)).last());
    assert(!dest_taken(sources, j, target.path@));
    assert(dest_of(sources[i], target.path@) is Some);
}

} // verus!
