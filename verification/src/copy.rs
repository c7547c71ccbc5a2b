//! What copies through a backend start from: the mount that a path lies on, the
//! backend for it, and what was prepared.
use crate::attrs::{error_kind, vf_io_error, VfError, VfIoError};
use crate::mount::{same_mount, ImplChoice, Mount};
use crate::open::Disabled;
use crate::path::{
    components, copy_bytes, law_parent_drops_last_component, parent, parent_spec, Component,
};
use crate::pathmap::{holds_value, lists_values, PathMap};
use crate::server_copy::{CopyPlan, PreparedCopy};
use vstd::prelude::*;

verus! {

// ---------------------------------------------------------------------------
// Where a path will lie
// ---------------------------------------------------------------------------

/// The path that is `n` parents up.
pub open spec fn parent_up(path: Seq<u8>, n: int) -> Option<Seq<u8>>
    decreases n,
{
    if n <= 0 {
        Some(path)
    } else {
        match parent_up(path, n - 1) {
            Some(p) => parent_spec(p),
            None => None,
        }
    }
}

/// Going up takes one component off the end of the path at each step, so the
/// search ends.
pub proof fn law_parents_lead_up(path: Seq<u8>, n: int)
    requires
        0 <= n,
        parent_up(path, n) is Some,
    ensures
        n <= components(path).len(),
        components(parent_up(path, n)->0) == components(path).take(components(path).len() - n),
    decreases n,
{
    if n > 0 {
        law_parents_lead_up(path, n - 1);
        let p = parent_up(path, n - 1)->0;
        law_parent_drops_last_component(p);
        assert(components(p).drop_last() =~= components(path).take(components(path).len() - n));
    } else {
        assert(components(path).take(components(path).len() as int) =~= components(path));
    }
}

/// What is known of the nearest ancestor that exists.
#[derive(Debug)]
pub enum Ancestor {
    /// It has to be found out whether this one exists.
    Unknown(Vec<u8>),
    /// It is this one; or none exists, and this is the last one.
    Known(Vec<u8>),
}

/// Whether `at` is where the search ends: nothing before it exists, and it
/// exists itself or has no parent.
pub open spec fn search_ends(path: Seq<u8>, there: Seq<bool>, at: int, found: Seq<u8>) -> bool {
    &&& 0 <= at < there.len()
    &&& parent_up(path, at) == Some(found)
    &&& forall|k: int| 0 <= k < at ==> !#[trigger] there[k]
    &&& there[at] || parent_spec(found) is None
}

pub open spec fn is_found(path: Seq<u8>, there: Seq<bool>, found: Seq<u8>) -> bool {
    exists|at: int| #[trigger] search_ends(path, there, at, found)
}

/// The nearest ancestor that exists, the path itself first. `there` tells of
/// the path, its parent, and so on, as far as it was found out.
pub fn existing_ancestor(path: &[u8], there: &Vec<bool>) -> (r: Ancestor)
    ensures
        match r {
            Ancestor::Known(p) => is_found(path@, there@, p@),
            Ancestor::Unknown(p) => {
                &&& parent_up(path@, there@.len() as int) == Some(p@)
                &&& forall|k: int| 0 <= k < there@.len() ==> !#[trigger] there@[k]
            },
        },
{
    let mut candidate: &[u8] = path;
    let n: usize = there.len();
    let mut i: usize = 0;
    while i < n
        invariant
            n == there@.len(),
            i <= n,
            parent_up(path@, i as int) == Some(candidate@),
            forall|k: int| 0 <= k < i ==> !#[trigger] there@[k],
        decreases n - i,
    {
        if there[i] {
            let found = copy_bytes(candidate);
            assert(search_ends(path@, there@, i as int, found@));
            return Ancestor::Known(found);
        }
        match parent(candidate) {
            Some(p) => {
                assert(parent_up(path@, i + 1) == Some(p@));
                candidate = p;
            },
            None => {
                let found = copy_bytes(candidate);
                assert(search_ends(path@, there@, i as int, found@));
                return Ancestor::Known(found);
            },
        }
        i = i + 1;
    }
    Ancestor::Unknown(copy_bytes(candidate))
}

// ---------------------------------------------------------------------------
// The backend
// ---------------------------------------------------------------------------

/// The minor version of the NFS protocol that has an operation to copy.
pub const COPYING_MINOR: u32 = 2;

/// How it is tried to set up a backend.
#[derive(Debug)]
pub enum Connecting {
    /// The local file system below this directory.
    Dummy(Vec<u8>),
    /// The NFS server, by this minor version of the protocol.
    NfsMinor(String, u32),
    /// The NFS server, by any version.
    Nfs(String),
}

/// What follows from a try.
#[derive(Debug)]
pub enum Connected {
    Ready(Backend),
    Retry(Connecting),
    Failed(VfIoError),
}

/// What a backend can do.
#[derive(Clone, Copy, Debug, PartialEq, Eq, Structural)]
pub enum Backend {
    Dummy,
    Nfs { supports_copy: bool },
}

impl Backend {
    pub open spec fn copies(self) -> bool {
        self == Backend::Nfs { supports_copy: true }
    }

    /// Whether the backend can be asked to copy.
    pub fn can_copy(self) -> (r: bool)
        ensures
            r == self.copies(),
    {
        match self {
            Backend::Nfs { supports_copy } => supports_copy,
            Backend::Dummy => false,
        }
    }
}

/// How it is tried first to set up the chosen backend for a mount.
pub fn make_context(choice: Option<ImplChoice>, mount: &Mount) -> (r: Result<Connecting, Disabled>)
    ensures
        match choice {
            Some(ImplChoice::Dummy) => r matches Ok(Connecting::Dummy(root)) && root@
                == mount.point@,
            Some(ImplChoice::Nfs) => r matches Ok(Connecting::NfsMinor(server, minor)) && server@
                == mount.server@ && minor == COPYING_MINOR,
            None => r is Err,
        },
{
    match choice {
        Some(ImplChoice::Dummy) => Ok(Connecting::Dummy(copy_bytes(mount.point.as_slice()))),
        Some(ImplChoice::Nfs) => Ok(
            Connecting::NfsMinor(mount.server.clone(), COPYING_MINOR),
        ),
        None => Err(Disabled),
    }
}

/// What follows from a try to set up a backend: the backend, which copies where
/// the protocol for that was spoken; another try, where it was not; or the error
/// of the last one.
pub fn connected(tried: Connecting, outcome: Result<(), VfError>) -> (r: Connected)
    ensures
        match (tried, outcome) {
            (Connecting::Dummy(_), Ok(_)) => r == Connected::Ready(Backend::Dummy),
            (Connecting::NfsMinor(_, _), Ok(_)) => r == Connected::Ready(
                Backend::Nfs { supports_copy: true },
            ),
            (Connecting::Nfs(_), Ok(_)) => r == Connected::Ready(
                Backend::Nfs { supports_copy: false },
            ),
            (Connecting::NfsMinor(server, _), Err(_)) => r == Connected::Retry(
                Connecting::Nfs(server),
            ),
            (_, Err(e)) => r == Connected::Failed(
                VfIoError { kind: error_kind(e.fault), source: e },
            ),
        },
{
    match (tried, outcome) {
        (Connecting::Dummy(_), Ok(_)) => Connected::Ready(Backend::Dummy),
        (Connecting::NfsMinor(_, _), Ok(_)) => Connected::Ready(
            Backend::Nfs { supports_copy: true },
        ),
        (Connecting::Nfs(_), Ok(_)) => Connected::Ready(Backend::Nfs { supports_copy: false }),
        (Connecting::NfsMinor(server, _), Err(_)) => Connected::Retry(Connecting::Nfs(server)),
        (_, Err(e)) => Connected::Failed(vf_io_error(e)),
    }
}

/// A backend at work for one mount, with what was prepared for later copies.
pub struct Context {
    pub mount: Mount,
    pub backend: Backend,
    /// Contents of sources that were read ahead.
    pub prefetched: PathMap<Vec<u8>>,
    /// Copies of sources that the server made under temporary names.
    pub prepared_copies: PathMap<PreparedCopy>,
}

/// What is kept once the server made the planned copies.
pub open spec fn with_plans(
    before: Map<Seq<Component>, PreparedCopy>,
    plans: Seq<(Vec<u8>, PreparedCopy)>,
) -> Map<Seq<Component>, PreparedCopy>
    decreases plans.len(),
{
    if plans.len() == 0 {
        before
    } else {
        with_plans(before, plans.drop_last()).insert(
            components(plans.last().0@),
            plans.last().1,
        )
    }
}

/// A copy that the server made is found by the path of its source, where the
/// sources are different ones.
pub proof fn law_prepared_copies_are_found(
    before: Map<Seq<Component>, PreparedCopy>,
    plans: Seq<(Vec<u8>, PreparedCopy)>,
)
    requires
        forall|i: int, j: int|
            0 <= i < j < plans.len() ==> components((#[trigger] plans[i]).0@) != components(
                (#[trigger] plans[j]).0@,
            ),
    ensures
        forall|i: int|
            0 <= i < plans.len() ==> with_plans(before, plans).dom().contains(
                components((#[trigger] plans[i]).0@),
            ) && with_plans(before, plans)[components(plans[i].0@)] == plans[i].1,
    decreases plans.len(),
{
    if plans.len() > 0 {
        let front = plans.drop_last();
        assert forall|i: int, j: int| 0 <= i < j < front.len() implies components(
            (#[trigger] front[i]).0@,
        ) != components((#[trigger] front[j]).0@) by {
            assert(front[i] == plans[i] && front[j] == plans[j]);
        }
        law_prepared_copies_are_found(before, front);
        assert forall|i: int| 0 <= i < plans.len() implies with_plans(before, plans).dom().contains(
            components((#[trigger] plans[i]).0@),
        ) && with_plans(before, plans)[components(plans[i].0@)] == plans[i].1 by {
            if i < front.len() {
                assert(front[i] == plans[i]);
                assert(components(plans[i].0@) != components(plans[plans.len() - 1].0@));
            }
        }
    }
}

/// Whether a path is the temporary file of a prepared copy.
pub open spec fn is_prepared_temp(m: Map<Seq<Component>, PreparedCopy>, temp: Vec<u8>) -> bool {
    exists|k: Seq<Component>| #[trigger] m.dom().contains(k) && m[k].temp == temp
}

/// Whether these are the temporary files of the prepared copies, one for each, in
/// the order of `keys`.
pub open spec fn lists_temps(
    m: Map<Seq<Component>, PreparedCopy>,
    keys: Seq<Seq<Component>>,
    temps: Seq<Vec<u8>>,
) -> bool {
    &&& keys.no_duplicates()
    &&& keys.to_set() == m.dom()
    &&& temps == keys.map_values(|k: Seq<Component>| m[k].temp)
}

impl Context {
    pub fn new(mount: Mount, backend: Backend) -> (r: Context)
        ensures
            r.mount == mount,
            r.backend == backend,
            r.prefetched@ == Map::<Seq<Component>, Vec<u8>>::empty(),
            r.prepared_copies@ == Map::<Seq<Component>, PreparedCopy>::empty(),
    {
        Context {
            mount,
            backend,
            prefetched: PathMap::new(),
            prepared_copies: PathMap::new(),
        }
    }

    /// Whether a context serves a mount; another one has to be made otherwise.
    pub fn serves(context: Option<&Context>, mount: &Mount) -> (r: bool)
        ensures
            r == (context matches Some(c) && same_mount(c.mount@, mount@)),
    {
        match context {
            Some(c) => c.mount.same_as(mount),
            None => false,
        }
    }

    /// Takes in what came of the planned copies. The temporary files that are
    /// returned are to be removed: all of them where the server did not copy.
    pub fn settle(&mut self, plan: CopyPlan, copied: bool) -> (r: Vec<Vec<u8>>)
        ensures
            final(self).mount == old(self).mount,
            final(self).backend == old(self).backend,
            final(self).prefetched == old(self).prefetched,
            copied ==> r@.len() == 0 && final(self).prepared_copies@ == with_plans(
                old(self).prepared_copies@,
                plan.plans@,
            ),
            !copied ==> {
                &&& final(self).prepared_copies@ == old(self).prepared_copies@
                &&& r@.len() == plan.plans@.len()
                &&& forall|k: int|
                    0 <= k < r@.len() ==> #[trigger] r@[k] == plan.plans@[k].1.temp
            },
    {
        let ghost all = plan.plans@;
        let ghost before = self.prepared_copies@;
        let n: usize = plan.plans.len();
        let mut rest = crate::sort::reversed(plan.plans);
        let mut out: Vec<Vec<u8>> = Vec::new();
        let ghost mut done: int = 0;
        assert(all.take(0) =~= Seq::empty());
        while rest.len() > 0
            invariant
                n == all.len(),
                0 <= done == n - rest@.len(),
                forall|k: int| 0 <= k < rest@.len() ==> #[trigger] rest@[k] == all[n - 1 - k],
                self.mount == old(self).mount,
                self.backend == old(self).backend,
                self.prefetched == old(self).prefetched,
                copied ==> out@.len() == 0 && self.prepared_copies@ == with_plans(
                    before,
                    all.take(done),
                ),
                !copied ==> {
                    &&& self.prepared_copies@ == before
                    &&& out@.len() == done
                    &&& forall|k: int| 0 <= k < done ==> #[trigger] out@[k] == all[k].1.temp
                },
            decreases rest@.len(),
        {
            assert(rest@[rest@.len() - 1] == all[done]);
            assert(all.take(done + 1).drop_last() =~= all.take(done));
            if let Some(p) = rest.pop() {
                let (source, prepared) = p;
                if copied {
                    self.prepared_copies.insert(source, prepared);
                } else {
                    out.push(prepared.temp);
                }
            }
            proof {
                done = done + 1;
            }
        }
        assert(all.take(n as int) =~= all);
        out
    }

    /// The temporary files that are to be removed when the context goes away:
    /// those of all copies that were prepared and not asked for.
    pub fn leftovers(self) -> (r: Vec<Vec<u8>>)
        ensures
            exists|keys: Seq<Seq<Component>>| #[trigger]
                lists_temps(self.prepared_copies@, keys, r@),
            r@.len() == self.prepared_copies@.dom().len(),
            forall|k: Seq<Component>| #[trigger]
                self.prepared_copies@.dom().contains(k) ==> r@.contains(
                    self.prepared_copies@[k].temp,
                ),
            forall|j: int|
                0 <= j < r@.len() ==> is_prepared_temp(self.prepared_copies@, #[trigger] r@[j]),
    {
        let ghost map = self.prepared_copies@;
        let values = self.prepared_copies.into_values();
        let ghost all = values@;
        let n: usize = values.len();
        let mut rest = crate::sort::reversed(values);
        let mut out: Vec<Vec<u8>> = Vec::new();
        let ghost mut done: int = 0;
        while rest.len() > 0
            invariant
                n == all.len(),
                0 <= done == n - rest@.len(),
                forall|k: int| 0 <= k < rest@.len() ==> #[trigger] rest@[k] == all[n - 1 - k],
                out@.len() == done,
                forall|k: int| 0 <= k < done ==> #[trigger] out@[k] == all[k].temp,
            decreases rest@.len(),
        {
            assert(rest@[rest@.len() - 1] == all[done]);
            if let Some(p) = rest.pop() {
                out.push(p.temp);
            }
            proof {
                done = done + 1;
            }
        }
        proof {
            assert forall|k: Seq<Component>| #[trigger] map.dom().contains(k) implies out@.contains(
                map[k].temp,
            ) by {
                assert(all.contains(map[k]));
                let i = choose|i: int| 0 <= i < all.len() && all[i] == map[k];
                assert(out@[i] == map[k].temp);
            }
            assert forall|j: int| 0 <= j < out@.len() implies is_prepared_temp(
                map,
                #[trigger] out@[j],
            ) by {
                assert(holds_value(map, all[j]));
                let k = choose|k: Seq<Component>| #[trigger]
                    map.dom().contains(k) && map[k] == all[j];
                assert(map.dom().contains(k) && map[k].temp == out@[j]);
            }
            let keys = choose|keys: Seq<Seq<Component>>| #[trigger] lists_values(map, keys, all);
            assert(out@ =~= keys.map_values(|k: Seq<Component>| map[k].temp));
            assert(lists_temps(map, keys, out@));
        }
        out
    }
}

} // verus!
