//! Trees that the backend walked whole: which of their directories are listed,
//! and how.
use crate::attrs::VfAttrs;
use crate::config::{Config, Files};
use crate::entry::PathData;
use crate::entry_order::{name_of, vf_name};
use crate::listing::{are_dot_entries, dot_entries, is_vf_entry, set_places, DotTargets};
use crate::path::{
    copy_bytes, join, join_spec, spans, spans_spec, spans_view, strip_prefix, strip_prefix_spec,
};
use crate::security::{from_utf8_lossy, lossy_text};
use vstd::prelude::*;
use vstd::slice::slice_subrange;
use vstd::utf8::{encode_utf8, valid_utf8};

verus! {

/// A directory of a walked tree, with what it holds.
pub struct WalkEntry {
    pub path: Vec<u8>,
    pub entries: Vec<VfAttrs>,
}

// ---------------------------------------------------------------------------
// Names below the root
// ---------------------------------------------------------------------------

/// The texts of the components of a path.
pub open spec fn component_texts(p: Seq<u8>) -> Seq<Seq<u8>> {
    Seq::new(spans_spec(p).len(), |k: int| p.subrange(spans_spec(p)[k].0, spans_spec(p)[k].1))
}

/// A path as seen from `root`; a path that is not below it stays as it is.
pub open spec fn seen_from(root: Seq<u8>, path: Seq<u8>) -> Seq<u8> {
    match strip_prefix_spec(path, root) {
        Some(rel) => rel,
        None => path,
    }
}

/// The names that lead from `root` to a path.
pub fn relative_names(root: &[u8], path: &[u8]) -> (r: Vec<Vec<u8>>)
    ensures
        r@.len() == component_texts(seen_from(root@, path@)).len(),
        forall|k: int|
            0 <= k < r@.len() ==> (#[trigger] r@[k])@ == component_texts(
                seen_from(root@, path@),
            )[k],
{
    let rel = match strip_prefix(path, root) {
        Some(rel) => rel,
        None => path,
    };
    assert(rel@ == seen_from(root@, path@));
    let found = spans(rel);
    proof {
        crate::path::lemma_spans(rel@);
    }
    let n: usize = found.len();
    let mut out: Vec<Vec<u8>> = Vec::new();
    let mut i: usize = 0;
    while i < n
        invariant
            n == found@.len(),
            i <= n,
            spans_view(found@) == spans_spec(rel@),
            forall|k: int|
                0 <= k < spans_spec(rel@).len() ==> 0 <= (#[trigger] spans_spec(rel@)[k]).0
                    < spans_spec(rel@)[k].1 <= rel@.len(),
            out@.len() == i,
            forall|k: int| 0 <= k < i ==> (#[trigger] out@[k])@ == component_texts(rel@)[k],
        decreases n - i,
    {
        let (a, b): (usize, usize) = found[i];
        assert(spans_view(found@)[i as int] == (a as int, b as int));
        out.push(copy_bytes(slice_subrange(rel, a, b)));
        i = i + 1;
    }
    out
}

// ---------------------------------------------------------------------------
// Which directories are listed
// ---------------------------------------------------------------------------

/// Above which depth directories are passed over, once the first `i` were
/// looked at. `shown` tells for each directory, name by name, whether it is
/// displayed.
pub open spec fn passing_over(shown: Seq<Seq<bool>>, i: int) -> Option<nat>
    decreases i,
{
    if i <= 0 {
        None
    } else {
        match passing_over(shown, i - 1) {
            Some(depth) if shown[i - 1].len() > depth => Some(depth),
            _ => if shown[i - 1].contains(false) {
                Some(shown[i - 1].len())
            } else {
                None
            },
        }
    }
}

/// Whether a directory of the walk is listed.
pub open spec fn is_rendered(shown: Seq<Seq<bool>>, i: int) -> bool {
    &&& !(passing_over(shown, i) matches Some(depth) && shown[i].len() > depth)
    &&& !shown[i].contains(false)
}

pub open spec fn rendered_flags(shown: Seq<Seq<bool>>) -> Seq<bool> {
    Seq::new(shown.len(), |i: int| is_rendered(shown, i))
}

/// Whether directories come in pre-order: each one after its parent, and
/// nothing but what the parent holds in between. Directories are told by the
/// names that lead to them.
pub open spec fn preordered(names: Seq<Seq<Seq<u8>>>) -> bool {
    &&& names.no_duplicates()
    &&& forall|i: int| 0 < i < names.len() ==> #[trigger] follows_parent(names, i)
}

pub open spec fn follows_parent(names: Seq<Seq<Seq<u8>>>, i: int) -> bool {
    &&& names[i].len() > 0
    &&& exists|p: int| #[trigger] parent_at(names, i, p)
}

pub open spec fn parent_at(names: Seq<Seq<Seq<u8>>>, i: int, p: int) -> bool {
    &&& 0 <= p < i
    &&& names[p] == names[i].drop_last()
    &&& forall|m: int| p < m < i ==> names[p].is_prefix_of(#[trigger] names[m])
}

proof fn lemma_deeper_is_below(names: Seq<Seq<Seq<u8>>>, h: int, i: int)
    requires
        preordered(names),
        0 <= h < i < names.len(),
        forall|m: int| h < m <= i ==> (#[trigger] names[m]).len() > names[h].len(),
    ensures
        names[h].is_prefix_of(names[i]),
    decreases i,
{
    assert(follows_parent(names, i));
    let p = choose|p: int| #[trigger] parent_at(names, i, p);
    assert(names[i].len() > names[h].len());
    if p > h {
        lemma_deeper_is_below(names, h, p);
        assert(names[h].is_prefix_of(names[i])) by {
            assert(names[p] =~= names[i].take(names[p].len() as int));
        }
    } else if p == h {
        assert(names[h] =~= names[i].take(names[h].len() as int));
    } else {
        assert(names[p].is_prefix_of(names[h]));
        assert(names[p] =~= names[h]);
    }
}

/// Whether directories are passed over for the sake of a hidden one before them.
spec fn passing_for(shown: Seq<Seq<bool>>, i: int, h: int) -> bool {
    &&& 0 <= h < i
    &&& shown[h].contains(false)
    &&& passing_over(shown, i) == Some(shown[h].len())
    &&& forall|m: int| h < m < i ==> (#[trigger] shown[m]).len() > shown[h].len()
}

proof fn lemma_passing_has_cause(shown: Seq<Seq<bool>>, i: int)
    requires
        0 <= i <= shown.len(),
    ensures
        passing_over(shown, i) is Some ==> exists|h: int| passing_for(shown, i, h),
    decreases i,
{
    if i > 0 {
        lemma_passing_has_cause(shown, i - 1);
        match passing_over(shown, i - 1) {
            Some(depth) if shown[i - 1].len() > depth => {
                let before = i - 1;
                let h = choose|h: int| passing_for(shown, before, h);
                assert(passing_for(shown, i, h));
            },
            _ => {
                if shown[i - 1].contains(false) {
                    assert(passing_for(shown, i, i - 1));
                }
            },
        }
    }
}

/// In a walk in pre-order a directory is listed exactly where every name that
/// leads to it from the root is displayed.
pub proof fn law_hidden_subtrees_are_passed_over(
    names: Seq<Seq<Seq<u8>>>,
    displayed: spec_fn(Seq<u8>) -> bool,
    shown: Seq<Seq<bool>>,
    i: int,
)
    requires
        preordered(names),
        shown.len() == names.len(),
        forall|k: int| 0 <= k < names.len() ==> #[trigger] shown[k] == names[k].map_values(displayed),
        0 <= i < names.len(),
    ensures
        is_rendered(shown, i) <==> forall|k: int|
            0 <= k < names[i].len() ==> displayed(#[trigger] names[i][k]),
{
    let all = forall|k: int| 0 <= k < names[i].len() ==> displayed(#[trigger] names[i][k]);
    assert(shown[i] == names[i].map_values(displayed));
    if all {
        assert(!shown[i].contains(false)) by {
            if shown[i].contains(false) {
                let k = choose|k: int| 0 <= k < shown[i].len() && shown[i][k] == false;
                assert(displayed(names[i][k]));
            }
        }
    } else {
        let k = choose|k: int| 0 <= k < names[i].len() && !displayed(#[trigger] names[i][k]);
        assert(shown[i][k] == false);
    }
    lemma_passing_has_cause(shown, i);
    if passing_over(shown, i) is Some && shown[i].len() > passing_over(shown, i)->0 {
        let h = choose|h: int| passing_for(shown, i, h);
        assert(shown[h] == names[h].map_values(displayed));
        assert forall|m: int| h < m <= i implies (#[trigger] names[m]).len() > names[h].len() by {
            assert(shown[m] == names[m].map_values(displayed));
            assert(shown[m].len() > shown[h].len());
        }
        lemma_deeper_is_below(names, h, i);
        let k = choose|k: int| 0 <= k < shown[h].len() && shown[h][k] == false;
        assert(names[h][k] == names[i][k]);
        assert(!displayed(names[i][k]));
    }
}

/// A directory of the walk that is listed.
#[derive(Clone, Copy, Debug, PartialEq, Eq, Structural)]
pub struct Rendering {
    pub index: usize,
    /// Whether its heading is the first thing in the output.
    pub is_first: bool,
}

fn has_hidden(names: &Vec<bool>) -> (r: bool)
    ensures
        r == names@.contains(false),
{
    let n: usize = names.len();
    let mut i: usize = 0;
    while i < n
        invariant
            n == names@.len(),
            i <= n,
            forall|k: int| 0 <= k < i ==> names@[k],
        decreases n - i,
    {
        if !names[i] {
            assert(names@[i as int] == false);
            return true;
        }
        i = i + 1;
    }
    false
}

pub open spec fn flags_view(shown: Seq<Vec<bool>>) -> Seq<Seq<bool>> {
    Seq::new(shown.len(), |i: int| shown[i]@)
}

/// The directories of a walk that are listed. A directory of which a name is
/// not displayed is left out with all that it holds.
pub fn list_recursive_vf(shown: &Vec<Vec<bool>>, pos: usize, files_is_empty: bool) -> (r: Vec<
    Rendering,
>)
    ensures
        r@.len() == set_places(rendered_flags(flags_view(shown@))).len(),
        forall|k: int|
            0 <= k < r@.len() ==> (#[trigger] r@[k]).index == set_places(
                rendered_flags(flags_view(shown@)),
            )[k],
        forall|k: int|
            0 <= k < r@.len() ==> (#[trigger] r@[k]).is_first == (r@[k].index == 0 && pos == 0
                && files_is_empty),
{
    let ghost sv = flags_view(shown@);
    let ghost flags = rendered_flags(sv);
    let mut skip_until: Option<usize> = None;
    let mut out: Vec<Rendering> = Vec::new();
    let n: usize = shown.len();
    let mut i: usize = 0;
    assert(flags.take(0) =~= Seq::empty());
    while i < n
        invariant
            n == shown@.len(),
            i <= n,
            sv == flags_view(shown@),
            flags == rendered_flags(sv),
            match skip_until {
                Some(d) => passing_over(sv, i as int) == Some(d as nat),
                None => passing_over(sv, i as int) is None,
            },
            out@.len() == set_places(flags.take(i as int)).len(),
            forall|k: int|
                0 <= k < out@.len() ==> (#[trigger] out@[k]).index == set_places(
                    flags.take(i as int),
                )[k],
            forall|k: int|
                0 <= k < out@.len() ==> (#[trigger] out@[k]).is_first == (out@[k].index == 0 && pos
                    == 0 && files_is_empty),
        decreases n - i,
    {
        assert(flags.take(i + 1).drop_last() =~= flags.take(i as int));
        assert(sv[i as int] == shown@[i as int]@);
        let depth: usize = shown[i].len();
        let skipped = match skip_until {
            Some(d) => depth > d,
            None => false,
        };
        if !skipped {
            if has_hidden(&shown[i]) {
                skip_until = Some(depth);
            } else {
                skip_until = None;
                out.push(Rendering { index: i, is_first: i == 0 && pos == 0 && files_is_empty });
            }
        }
        i = i + 1;
    }
    assert(flags.take(n as int) =~= flags);
    out
}

// ---------------------------------------------------------------------------
// The entries of a walked directory
// ---------------------------------------------------------------------------

/// The name that a walked file is shown by: its name where that is valid UTF-8,
/// and otherwise as much of it as is text.
pub open spec fn walked_name_spec(a: VfAttrs) -> Seq<u8> {
    if valid_utf8(vf_name(a)) {
        vf_name(a)
    } else {
        encode_utf8(lossy_text(vf_name(a)))
    }
}

/// The name that a walked file is shown by.
pub fn walked_name(a: &VfAttrs) -> (r: Vec<u8>)
    ensures
        r@ == walked_name_spec(*a),
{
    let name = name_of(a);
    let text = from_utf8_lossy(name.as_slice());
    proof {
        if valid_utf8(name@) {
            vstd::utf8::decode_utf8_encode_utf8(name@);
        }
    }
    copy_bytes(text.as_str().as_bytes())
}

/// The entries of a walked directory, yet to be sorted: `.` and `..` where they
/// are listed, then the displayed ones. `displayed` tells for each report
/// whether files of its name are displayed.
pub fn walked_entries(
    dir: &[u8],
    targets: DotTargets,
    reports: &Vec<VfAttrs>,
    displayed: &Vec<bool>,
    config: &Config,
) -> (r: Vec<PathData>)
    requires
        reports@.len() == displayed@.len(),
    ensures
        ({
            let shown = set_places(displayed@);
            let dots = if config.files == Files::All {
                2int
            } else {
                0int
            };
            &&& r@.len() == dots + shown.len()
            &&& are_dot_entries(r@.take(dots), dir@, targets, *config)
            &&& forall|k: int|
                0 <= k < shown.len() ==> is_vf_entry(
                    r@[dots + k],
                    join_spec(dir@, walked_name_spec(reports@[#[trigger] shown[k]])),
                    walked_name_spec(reports@[shown[k]]),
                    reports@[shown[k]],
                    *config,
                )
        }),
{
    let mut entries = dot_entries(dir, targets, config);
    let ghost dots: int = entries@.len() as int;
    let ghost first = entries@;
    let n: usize = reports.len();
    let mut i: usize = 0;
    assert(displayed@.take(0) =~= Seq::empty());
    while i < n
        invariant
            n == reports@.len(),
            n == displayed@.len(),
            i <= n,
            dots == first.len(),
            entries@.len() == dots + set_places(displayed@.take(i as int)).len(),
            entries@.take(dots) == first,
            forall|k: int|
                0 <= k < set_places(displayed@.take(i as int)).len() ==> is_vf_entry(
                    entries@[dots + k],
                    join_spec(
                        dir@,
                        walked_name_spec(
                            reports@[#[trigger] set_places(displayed@.take(i as int))[k]],
                        ),
                    ),
                    walked_name_spec(reports@[set_places(displayed@.take(i as int))[k]]),
                    reports@[set_places(displayed@.take(i as int))[k]],
                    *config,
                ),
        decreases n - i,
    {
        let ghost sofar = entries@;
        let ghost shown = set_places(displayed@.take(i as int));
        assert(displayed@.take(i + 1).drop_last() =~= displayed@.take(i as int));
        if displayed[i] {
            let a = &reports[i];
            let name = walked_name(a);
            let path = join(dir, name.as_slice());
            let entry = PathData::from_vf(path, name, a.duplicate(), config);
            entries.push(entry);
        }
        proof {
            let shown2 = set_places(displayed@.take(i + 1));
            assert(entries@.take(dots) =~= first);
            assert forall|k: int| 0 <= k < shown2.len() implies is_vf_entry(
                entries@[dots + k],
                join_spec(dir@, walked_name_spec(reports@[#[trigger] shown2[k]])),
                walked_name_spec(reports@[shown2[k]]),
                reports@[shown2[k]],
                *config,
            ) by {
                if k < shown.len() {
                    assert(shown2[k] == shown[k]);
                    assert(entries@[dots + k] == sofar[dots + k]);
                }
            }
        }
        i = i + 1;
    }
    assert(displayed@.take(n as int) =~= displayed@);
    entries
}

} // verus!
