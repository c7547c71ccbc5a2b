//! Which NFS mount a path lies on, and what the path is called on the server.
use crate::path::{
    body_components, components, copy_bytes, file_name, file_name_spec, is_absolute_spec, join,
    join_spec, law_strip_prefix_undoes_join, lemma_components_slash_root, lemma_join_components,
    lemma_spans, lemma_tail_components, same_path, starts_with, starts_with_spec, strip_prefix,
    strip_prefix_spec, tail_from, Component, SLASH,
};
use crate::text::{
    chars_of, field_spans, field_spans_spec, fields_spec, is_value, lemma_field_spans,
    lemma_line_spans, line_spans, line_spans_spec, lines_spec, pairs_view, str_eq,
};
use vstd::prelude::*;
use vstd::slice::slice_subrange;
use vstd::utf8::{encode_scalar, encode_utf8};

verus! {

/// A mounted NFS export.
#[derive(Debug)]
pub struct Mount {
    /// The host name or address of the server.
    pub server: String,
    /// The exported directory, as the server names it.
    pub export: Vec<u8>,
    /// The local directory that the export is mounted on.
    pub point: Vec<u8>,
}

/// What a mount is, as a value.
pub struct MountView {
    pub server: Seq<char>,
    pub export: Seq<u8>,
    pub point: Seq<u8>,
}

impl View for Mount {
    type V = MountView;

    open spec fn view(&self) -> MountView {
        MountView { server: self.server@, export: self.export@, point: self.point@ }
    }
}

/// Whether two mounts are the same: one server, and the same two directories.
pub open spec fn same_mount(a: MountView, b: MountView) -> bool {
    &&& a.server == b.server
    &&& components(a.export) == components(b.export)
    &&& components(a.point) == components(b.point)
}

impl Mount {
    pub fn same_as(&self, other: &Mount) -> (r: bool)
        ensures
            r == same_mount(self@, other@),
    {
        self.server == other.server && same_path(self.export.as_slice(), other.export.as_slice())
            && same_path(self.point.as_slice(), other.point.as_slice())
    }

    /// A copy of the mount.
    pub fn duplicate(&self) -> (r: Mount)
        ensures
            r@ == self@,
    {
        Mount {
            server: self.server.clone(),
            export: copy_bytes(self.export.as_slice()),
            point: copy_bytes(self.point.as_slice()),
        }
    }
}

// ---------------------------------------------------------------------------
// The mount table
// ---------------------------------------------------------------------------

pub open spec fn is_nfs_type(fstype: Seq<char>) -> bool {
    fstype == "nfs"@ || fstype == "nfs4"@
}

/// The position of the last `:`, or -1.
pub open spec fn last_colon(s: Seq<char>) -> int
    decreases s.len(),
{
    if s.len() == 0 {
        -1
    } else if s.last() == ':' {
        s.len() - 1
    } else {
        last_colon(s.drop_last())
    }
}

pub open spec fn is_bracket(c: char) -> bool {
    c == '[' || c == ']'
}

/// The text without brackets at either end.
pub open spec fn trim_brackets(s: Seq<char>) -> Seq<char>
    decreases s.len(),
{
    if s.len() > 0 && is_bracket(s[0]) {
        trim_brackets(s.drop_first())
    } else if s.len() > 0 && is_bracket(s.last()) {
        trim_brackets(s.drop_last())
    } else {
        s
    }
}

/// The mount that a line of the mount table tells of, if it is an NFS mount
/// that `path` lies on. The line reads: what is mounted, where, and its type;
/// what is mounted reads `server:export`.
pub open spec fn mount_of_line(path: Seq<u8>, line: Seq<char>) -> Option<MountView> {
    let f = fields_spec(line);
    if f.len() < 3 || !is_nfs_type(f[2]) || !starts_with_spec(path, encode_utf8(f[1]))
        || last_colon(f[0]) < 0 {
        None
    } else {
        Some(
            MountView {
                server: trim_brackets(f[0].take(last_colon(f[0]))),
                export: encode_utf8(f[0].skip(last_colon(f[0]) + 1)),
                point: encode_utf8(f[1]),
            },
        )
    }
}

/// All mounts in the table that `path` lies on.
pub open spec fn mounts_over(path: Seq<u8>, lines: Seq<Seq<char>>) -> Seq<MountView>
    decreases lines.len(),
{
    if lines.len() == 0 {
        Seq::empty()
    } else {
        let before = mounts_over(path, lines.drop_last());
        match mount_of_line(path, lines.last()) {
            Some(m) => before.push(m),
            None => before,
        }
    }
}

/// The mount with the longest mount point; of several, the last.
pub open spec fn last_longest(mounts: Seq<MountView>) -> Option<MountView>
    decreases mounts.len(),
{
    if mounts.len() == 0 {
        None
    } else {
        match last_longest(mounts.drop_last()) {
            Some(m) if m.point.len() > mounts.last().point.len() => Some(m),
            _ => Some(mounts.last()),
        }
    }
}

/// The mount that is chosen is in the table, `path` lies on it, no other mount
/// that `path` lies on has a longer mount point, and none that stands further
/// down has one as long.
pub proof fn law_longest_mount_is_chosen(path: Seq<u8>, lines: Seq<Seq<char>>)
    ensures
        mounts_over(path, lines).len() == 0 <==> last_longest(mounts_over(path, lines)) is None,
        last_longest(mounts_over(path, lines)) matches Some(m) ==> {
            &&& m.point.len() > 0
            &&& starts_with_spec(path, m.point)
            &&& exists|k: int| #[trigger]
                longest_at(mounts_over(path, lines), k) && mounts_over(path, lines)[k] == m
        },
{
    lemma_mounts_over(path, lines);
    lemma_last_longest(mounts_over(path, lines));
}

/// Whether `k` is the last place with the longest mount point.
pub open spec fn longest_at(mounts: Seq<MountView>, k: int) -> bool {
    &&& 0 <= k < mounts.len()
    &&& forall|j: int|
        0 <= j < mounts.len() ==> (#[trigger] mounts[j]).point.len() <= mounts[k].point.len()
    &&& forall|j: int|
        k < j < mounts.len() ==> (#[trigger] mounts[j]).point.len() < mounts[k].point.len()
}

proof fn lemma_last_longest(mounts: Seq<MountView>)
    ensures
        mounts.len() == 0 <==> last_longest(mounts) is None,
        last_longest(mounts) matches Some(m) ==> exists|k: int| #[trigger]
            longest_at(mounts, k) && mounts[k] == m,
    decreases mounts.len(),
{
    if mounts.len() > 0 {
        let front = mounts.drop_last();
        let n = mounts.len() - 1;
        lemma_last_longest(front);
        assert forall|j: int| 0 <= j < n implies mounts[j] == front[j] by {}
        match last_longest(front) {
            Some(m) => {
                let k = choose|k: int| #[trigger] longest_at(front, k) && front[k] == m;
                assert forall|j: int| 0 <= j < n implies (#[trigger] mounts[j]).point.len()
                    <= m.point.len() by {
                    assert(front[j] == mounts[j]);
                }
                if m.point.len() > mounts.last().point.len() {
                    assert forall|j: int| k < j < mounts.len() implies (
                    #[trigger] mounts[j]).point.len() < mounts[k].point.len() by {
                        if j < n {
                            assert(front[j] == mounts[j]);
                        }
                    }
                    assert(longest_at(mounts, k));
                } else {
                    assert(longest_at(mounts, n));
                }
            },
            None => {
                assert(longest_at(mounts, n));
            },
        }
    }
}

proof fn lemma_mounts_over(path: Seq<u8>, lines: Seq<Seq<char>>)
    ensures
        forall|k: int|
            0 <= k < mounts_over(path, lines).len() ==> starts_with_spec(
                path,
                (#[trigger] mounts_over(path, lines)[k]).point,
            ) && mounts_over(path, lines)[k].point.len() > 0,
        last_longest(mounts_over(path, lines)) matches Some(m) ==> starts_with_spec(path, m.point)
            && m.point.len() > 0,
    decreases lines.len(),
{
    if lines.len() > 0 {
        lemma_mounts_over(path, lines.drop_last());
        let before = mounts_over(path, lines.drop_last());
        match mount_of_line(path, lines.last()) {
            Some(m) => {
                assert(mounts_over(path, lines).drop_last() =~= before);
                assert(m.point.len() > 0) by {
                    lemma_field_spans(lines.last(), 0);
                    let word = fields_spec(lines.last())[1];
                    assert(field_spans_spec(lines.last(), 0)[1].0 < field_spans_spec(
                        lines.last(),
                        0,
                    )[1].1);
                    assert(word.len() > 0);
                    assert(encode_utf8(word) == encode_scalar(word[0] as u32) + encode_utf8(
                        word.drop_first(),
                    ));
                }
                assert forall|k: int| 0 <= k < mounts_over(path, lines).len() implies
                    starts_with_spec(path, (#[trigger] mounts_over(path, lines)[k]).point)
                    && mounts_over(path, lines)[k].point.len() > 0 by {
                    if k < before.len() {
                        assert(mounts_over(path, lines)[k] == before[k]);
                    }
                }
            },
            None => {},
        }
    }
}

/// The words of one line of the table.
fn line_fields(t: &[char], line: (usize, usize)) -> (r: Vec<(usize, usize)>)
    requires
        line.0 <= line.1 <= t@.len(),
    ensures
        r@.len() == fields_spec(t@.subrange(line.0 as int, line.1 as int)).len(),
        forall|k: int|
            0 <= k < r@.len() ==> {
                &&& line.0 <= (#[trigger] r@[k]).0 <= r@[k].1 <= line.1
                &&& t@.subrange(r@[k].0 as int, r@[k].1 as int) == fields_spec(
                    t@.subrange(line.0 as int, line.1 as int),
                )[k]
            },
{
    let s = slice_subrange(t, line.0, line.1);
    let f = field_spans(s);
    proof {
        lemma_field_spans(s@, 0);
        assert(pairs_view(f@).len() == field_spans_spec(s@, 0).len());
    }
    let n: usize = f.len();
    let mut out: Vec<(usize, usize)> = Vec::new();
    let mut k: usize = 0;
    while k < n
        invariant
            n == f@.len(),
            k <= n,
            out@.len() == k,
            line.0 <= line.1 <= t@.len(),
            s@ == t@.subrange(line.0 as int, line.1 as int),
            pairs_view(f@) == field_spans_spec(s@, 0),
            forall|l: int|
                0 <= l < n ==> 0 <= (#[trigger] field_spans_spec(s@, 0)[l]).0 < field_spans_spec(
                    s@,
                    0,
                )[l].1 <= s@.len(),
            forall|l: int|
                0 <= l < k ==> {
                    &&& line.0 <= (#[trigger] out@[l]).0 <= out@[l].1 <= line.1
                    &&& t@.subrange(out@[l].0 as int, out@[l].1 as int) == fields_spec(s@)[l]
                },
        decreases n - k,
    {
        let (a, b) = f[k];
        proof {
            assert(field_spans_spec(s@, 0)[k as int] == pairs_view(f@)[k as int]);
        }
        out.push((line.0 + a, line.0 + b));
        assert(t@.subrange(line.0 + a, line.0 + b) =~= s@.subrange(a as int, b as int));
        k = k + 1;
    }
    out
}

/// The last `:` in part of a text.
fn find_last_colon(t: &[char], a: usize, b: usize) -> (r: Option<usize>)
    requires
        a <= b <= t@.len(),
    ensures
        match r {
            Some(k) => a <= k < b && last_colon(t@.subrange(a as int, b as int)) == k - a,
            None => last_colon(t@.subrange(a as int, b as int)) < 0,
        },
{
    let mut i: usize = b;
    while i > a
        invariant
            a <= i <= b <= t@.len(),
            last_colon(t@.subrange(a as int, b as int)) == last_colon(
                t@.subrange(a as int, i as int),
            ),
        decreases i,
    {
        assert(t@.subrange(a as int, i as int).drop_last() =~= t@.subrange(a as int, i - 1));
        if t[i - 1] == ':' {
            return Some(i - 1);
        }
        i = i - 1;
    }
    None
}

/// Part of a text without the brackets at its ends.
fn trim_brackets_of(t: &[char], a: usize, b: usize) -> (r: (usize, usize))
    requires
        a <= b <= t@.len(),
    ensures
        a <= r.0 <= r.1 <= b,
        t@.subrange(r.0 as int, r.1 as int) == trim_brackets(t@.subrange(a as int, b as int)),
{
    let mut x: usize = a;
    let mut y: usize = b;
    while x < y && (t[x] == '[' || t[x] == ']')
        invariant
            a <= x <= y,
            y == b,
            b <= t@.len(),
            trim_brackets(t@.subrange(a as int, b as int)) == trim_brackets(
                t@.subrange(x as int, y as int),
            ),
        decreases y - x,
    {
        assert(t@.subrange(x as int, y as int).drop_first() =~= t@.subrange(x + 1, y as int));
        x = x + 1;
    }
    while x < y && (t[y - 1] == '[' || t[y - 1] == ']')
        invariant
            a <= x <= y <= b,
            b <= t@.len(),
            x < y ==> !is_bracket(t@[x as int]),
            trim_brackets(t@.subrange(a as int, b as int)) == trim_brackets(
                t@.subrange(x as int, y as int),
            ),
        decreases y - x,
    {
        assert(t@.subrange(x as int, y as int).drop_last() =~= t@.subrange(x as int, y - 1));
        y = y - 1;
    }
    (x, y)
}

fn mount_in_line(path: &[u8], text: &str, t: &[char], line: (usize, usize)) -> (r: Option<Mount>)
    requires
        text@ == t@,
        line.0 <= line.1 <= t@.len(),
    ensures
        match r {
            Some(m) => mount_of_line(path@, t@.subrange(line.0 as int, line.1 as int)) == Some(m@),
            None => mount_of_line(path@, t@.subrange(line.0 as int, line.1 as int)) is None,
        },
{
    let f = line_fields(t, line);
    if f.len() < 3 {
        return None;
    }
    let (sa, sb) = f[0];
    let (pa, pb) = f[1];
    let (ta, tb) = f[2];
    let fstype = text.substring_char(ta, tb);
    if !str_eq(fstype, "nfs") && !str_eq(fstype, "nfs4") {
        return None;
    }
    let point = text.substring_char(pa, pb);
    if !starts_with(path, point.as_bytes()) {
        return None;
    }
    match find_last_colon(t, sa, sb) {
        None => None,
        Some(k) => {
            let ghost spec = t@.subrange(sa as int, sb as int);
            assert(t@.subrange(sa as int, k as int) =~= spec.take(k - sa));
            assert(t@.subrange(k + 1, sb as int) =~= spec.skip(k - sa + 1));
            let (a, b) = trim_brackets_of(t, sa, k);
            let server = text.substring_char(a, b).to_owned();
            let export = text.substring_char(k + 1, sb);
            Some(
                Mount {
                    server,
                    export: copy_bytes(export.as_bytes()),
                    point: copy_bytes(point.as_bytes()),
                },
            )
        },
    }
}

/// The NFS mount that `path` lies on, by the text of a mount table: of several,
/// the one with the longest mount point.
pub fn find_mount(path: &[u8], mounts: &str) -> (r: Option<Mount>)
    ensures
        match r {
            Some(m) => last_longest(mounts_over(path@, lines_spec(mounts@))) == Some(m@),
            None => last_longest(mounts_over(path@, lines_spec(mounts@))) is None,
        },
{
    let chars = chars_of(mounts);
    let t = chars.as_slice();
    let spans = line_spans(t);
    let ghost lines = lines_spec(mounts@);
    proof {
        lemma_line_spans(t@, 0);
        assert(pairs_view(spans@).len() == lines.len());
    }
    let n: usize = spans.len();
    let mut best: Option<Mount> = None;
    let mut i: usize = 0;
    assert(lines.take(0) =~= Seq::empty());
    while i < n
        invariant
            n == spans@.len(),
            n == lines.len(),
            i <= n,
            t@ == mounts@,
            lines == lines_spec(mounts@),
            pairs_view(spans@) == line_spans_spec(t@, 0),
            forall|k: int|
                0 <= k < n ==> 0 <= (#[trigger] line_spans_spec(t@, 0)[k]).0 <= line_spans_spec(
                    t@,
                    0,
                )[k].1 <= t@.len(),
            match best {
                Some(m) => last_longest(mounts_over(path@, lines.take(i as int))) == Some(m@),
                None => last_longest(mounts_over(path@, lines.take(i as int))) is None,
            },
        decreases n - i,
    {
        proof {
            assert(line_spans_spec(t@, 0)[i as int] == pairs_view(spans@)[i as int]);
            assert(lines.take(i + 1).drop_last() =~= lines.take(i as int));
            assert(lines.take(i + 1).last() == lines[i as int]);
        }
        let found = mount_in_line(path, mounts, t, spans[i]);
        let ghost before = mounts_over(path@, lines.take(i as int));
        if let Some(m) = found {
            assert(mounts_over(path@, lines.take(i + 1)) == before.push(m@));
            assert(before.push(m@).drop_last() =~= before);
            let keep = match &best {
                Some(b) => b.point.len() > m.point.len(),
                None => false,
            };
            if !keep {
                best = Some(m);
            }
        }
        i = i + 1;
    }
    assert(lines.take(n as int) =~= lines);
    best
}

/// The mount point that a line of the mount table tells of, if it is that of an
/// NFS mount that `path` lies on.
pub open spec fn point_of_line(path: Seq<u8>, line: Seq<char>) -> Option<Seq<u8>> {
    let f = fields_spec(line);
    if f.len() < 3 || !is_nfs_type(f[2]) || !starts_with_spec(path, encode_utf8(f[1])) {
        None
    } else {
        Some(encode_utf8(f[1]))
    }
}

/// The longest mount point of an NFS mount that `path` lies on; of several, the
/// last in the table.
pub open spec fn longest_point(path: Seq<u8>, lines: Seq<Seq<char>>) -> Option<Seq<u8>>
    decreases lines.len(),
{
    if lines.len() == 0 {
        None
    } else {
        let before = longest_point(path, lines.drop_last());
        match (before, point_of_line(path, lines.last())) {
            (Some(b), Some(p)) => if b.len() > p.len() {
                Some(b)
            } else {
                Some(p)
            },
            (None, Some(p)) => Some(p),
            (b, None) => b,
        }
    }
}

/// The mount point that is found is one that the path lies on, in a line of the
/// table, and no line has a longer one; none is found only where there is none.
pub proof fn law_mountpoint_contains_path(path: Seq<u8>, lines: Seq<Seq<char>>)
    ensures
        match longest_point(path, lines) {
            Some(p) => {
                &&& starts_with_spec(path, p)
                &&& exists|k: int|
                    0 <= k < lines.len() && point_of_line(path, #[trigger] lines[k]) == Some(p)
                &&& forall|k: int|
                    0 <= k < lines.len() ==> (point_of_line(path, #[trigger] lines[k]) matches Some(
                        q,
                    ) ==> q.len() <= p.len())
            },
            None => forall|k: int|
                0 <= k < lines.len() ==> point_of_line(path, #[trigger] lines[k]) is None,
        },
    decreases lines.len(),
{
    if lines.len() > 0 {
        let front = lines.drop_last();
        let n = lines.len() - 1;
        law_mountpoint_contains_path(path, front);
        assert forall|k: int| 0 <= k < n implies lines[k] == front[k] by {}
        match longest_point(path, front) {
            Some(b) => {
                let k = choose|k: int|
                    0 <= k < front.len() && point_of_line(path, #[trigger] front[k]) == Some(b);
                assert(point_of_line(path, lines[k]) == Some(b));
            },
            None => {},
        }
        assert(point_of_line(path, lines[n]) == point_of_line(path, lines.last()));
        assert forall|k: int| 0 <= k < lines.len() implies (point_of_line(
            path,
            #[trigger] lines[k],
        ) matches Some(q) ==> (longest_point(path, lines) matches Some(p) && q.len()
            <= p.len())) by {
            if k < n {
                assert(point_of_line(path, front[k]) == point_of_line(path, lines[k]));
            }
        }
    }
}

/// The mount point of the NFS mount that contains a path.
pub fn nfs_mountpoint(path: &[u8], mounts: &str) -> (r: Option<Vec<u8>>)
    ensures
        match r {
            Some(p) => longest_point(path@, lines_spec(mounts@)) == Some(p@),
            None => longest_point(path@, lines_spec(mounts@)) is None,
        },
{
    let chars = chars_of(mounts);
    let t = chars.as_slice();
    let spans = line_spans(t);
    let ghost lines = lines_spec(mounts@);
    proof {
        lemma_line_spans(t@, 0);
        assert(pairs_view(spans@).len() == lines.len());
    }
    let n: usize = spans.len();
    let mut i: usize = 0;
    let mut best: Option<Vec<u8>> = None;
    assert(lines.take(0) =~= Seq::empty());
    while i < n
        invariant
            n == spans@.len(),
            n == lines.len(),
            i <= n,
            t@ == mounts@,
            lines == lines_spec(mounts@),
            pairs_view(spans@) == line_spans_spec(t@, 0),
            forall|k: int|
                0 <= k < n ==> 0 <= (#[trigger] line_spans_spec(t@, 0)[k]).0 <= line_spans_spec(
                    t@,
                    0,
                )[k].1 <= t@.len(),
            match best {
                Some(b) => longest_point(path@, lines.take(i as int)) == Some(b@),
                None => longest_point(path@, lines.take(i as int)) is None,
            },
        decreases n - i,
    {
        proof {
            assert(line_spans_spec(t@, 0)[i as int] == pairs_view(spans@)[i as int]);
            assert(lines.take(i + 1).drop_last() =~= lines.take(i as int));
            assert(lines.take(i + 1).last() == lines[i as int]);
        }
        let f = line_fields(t, spans[i]);
        if f.len() >= 3 {
            let fstype = mounts.substring_char(f[2].0, f[2].1);
            if str_eq(fstype, "nfs") || str_eq(fstype, "nfs4") {
                let point = mounts.substring_char(f[1].0, f[1].1);
                if starts_with(path, point.as_bytes()) {
                    let p = copy_bytes(point.as_bytes());
                    let keep = match &best {
                        Some(b) => b.len() > p.len(),
                        None => false,
                    };
                    if !keep {
                        best = Some(p);
                    }
                }
            }
        }
        i = i + 1;
    }
    assert(lines.take(n as int) =~= lines);
    best
}

// ---------------------------------------------------------------------------
// Which backend serves
// ---------------------------------------------------------------------------

/// The backends that can be chosen.
#[derive(Clone, Copy, Debug, PartialEq, Eq, Structural)]
pub enum ImplChoice {
    /// The local file system, behind the interface of the backend.
    Dummy,
    /// The NFS server itself.
    Nfs,
}

pub open spec fn chosen(value: Option<Seq<char>>) -> Option<ImplChoice> {
    if value == Some("dummy"@) {
        Some(ImplChoice::Dummy)
    } else if value == Some("nfs"@) {
        Some(ImplChoice::Nfs)
    } else {
        None
    }
}

/// The backend that the value of `VNFS_IMPL` asks for.
pub fn impl_choice(value: Option<&str>) -> (r: Option<ImplChoice>)
    ensures
        r == chosen(
            match value {
                Some(v) => Some(v@),
                None => None,
            },
        ),
{
    proof {
        reveal_strlit("dummy");
        reveal_strlit("nfs");
    }
    if is_value(value, "dummy") {
        Some(ImplChoice::Dummy)
    } else if is_value(value, "nfs") {
        Some(ImplChoice::Nfs)
    } else {
        None
    }
}

// ---------------------------------------------------------------------------
// Names on the server
// ---------------------------------------------------------------------------

/// What a path is called from the root of the mount; a path outside the mount
/// keeps its name.
pub open spec fn vf_path_spec(mountpoint: Seq<u8>, path: Seq<u8>) -> Seq<u8> {
    join_spec(
        seq![SLASH],
        match strip_prefix_spec(path, mountpoint) {
            Some(rel) => rel,
            None => path,
        },
    )
}

/// The local name of a path that the backend names from the root of the mount.
pub open spec fn kernel_path_spec(mountpoint: Seq<u8>, vpath: Seq<u8>) -> Seq<u8> {
    join_spec(
        mountpoint,
        match strip_prefix_spec(vpath, seq![SLASH]) {
            Some(rel) => rel,
            None => vpath,
        },
    )
}

pub fn vf_path(mountpoint: &[u8], path: &[u8]) -> (r: Vec<u8>)
    ensures
        r@ == vf_path_spec(mountpoint@, path@),
{
    let root: [u8; 1] = [SLASH];
    assert(root@ =~= seq![SLASH]);
    match strip_prefix(path, mountpoint) {
        Some(rel) => join(&root, rel),
        None => join(&root, path),
    }
}

pub fn kernel_path(mountpoint: &[u8], vpath: &[u8]) -> (r: Vec<u8>)
    ensures
        r@ == kernel_path_spec(mountpoint@, vpath@),
{
    let root: [u8; 1] = [SLASH];
    assert(root@ =~= seq![SLASH]);
    match strip_prefix(vpath, &root) {
        Some(rel) => join(mountpoint, rel),
        None => join(mountpoint, vpath),
    }
}

proof fn lemma_root()
    ensures
        components(seq![SLASH]) == seq![Component::RootDir],
        is_absolute_spec(seq![SLASH]),
{
    let e = Seq::<u8>::empty();
    lemma_components_slash_root(e);
    assert(seq![SLASH] + e =~= seq![SLASH]);
    assert(body_components(e) =~= Seq::empty());
    assert(seq![Component::RootDir] + body_components(e) =~= seq![Component::RootDir]);
}

/// A path on the mount, named from the mount's root and back, is the same path.
pub proof fn law_kernel_path_undoes_vf_path(mountpoint: Seq<u8>, path: Seq<u8>)
    requires
        mountpoint.len() > 0,
        starts_with_spec(path, mountpoint),
    ensures
        components(kernel_path_spec(mountpoint, vf_path_spec(mountpoint, path))) == components(
            path,
        ),
{
    let n = components(mountpoint).len() as int;
    lemma_spans(mountpoint);
    lemma_tail_components(path, n);
    let rel = tail_from(path, n);
    let root = seq![SLASH];
    let v = join_spec(root, rel);
    lemma_root();
    law_strip_prefix_undoes_join(root, rel);
    lemma_tail_components(v, 1);
    let back = tail_from(v, 1);
    lemma_join_components(mountpoint, back);
    assert(components(mountpoint) == components(path).subrange(0, n));
    assert(components(mountpoint) + components(path).skip(n) =~= components(path));
}

/// What lies at `rel` below a directory; the directory itself where `rel` is empty.
pub open spec fn below(dir: Seq<u8>, rel: Seq<u8>) -> Seq<u8> {
    if rel.len() == 0 {
        dir
    } else {
        join_spec(dir, rel)
    }
}

/// The local name of a directory in a tree that was walked from `root`. The
/// backend walked it by its canonical path and names directories from the root
/// of the mount; here the root stands in front again as it was given. What does
/// not lie below the root keeps its place on the mount.
pub open spec fn walked_path_spec(
    mountpoint: Seq<u8>,
    root: Seq<u8>,
    canonical: Seq<u8>,
    vpath: Seq<u8>,
) -> Seq<u8> {
    match strip_prefix_spec(vpath, vf_path_spec(mountpoint, canonical)) {
        None => kernel_path_spec(mountpoint, vpath),
        Some(rel) => if starts_with_spec(root, mountpoint) {
            kernel_path_spec(mountpoint, below(vf_path_spec(mountpoint, root), rel))
        } else {
            below(root, rel)
        },
    }
}

fn path_below(dir: &[u8], rel: &[u8]) -> (r: Vec<u8>)
    ensures
        r@ == below(dir@, rel@),
{
    if rel.len() == 0 {
        copy_bytes(dir)
    } else {
        join(dir, rel)
    }
}

/// The local name of a directory in a tree that was walked from `root`.
pub fn walked_path(mountpoint: &[u8], root: &[u8], canonical: &[u8], vpath: &[u8]) -> (r: Vec<u8>)
    ensures
        r@ == walked_path_spec(mountpoint@, root@, canonical@, vpath@),
{
    let asked = vf_path(mountpoint, canonical);
    match strip_prefix(vpath, asked.as_slice()) {
        None => kernel_path(mountpoint, vpath),
        Some(rel) => {
            if starts_with(root, mountpoint) {
                let named = path_below(vf_path(mountpoint, root).as_slice(), rel);
                kernel_path(mountpoint, named.as_slice())
            } else {
                path_below(root, rel)
            }
        },
    }
}

/// A walked directory is told by the root as it was given, and then by the names
/// that lead from the root to it: through a link as well as without one.
pub proof fn law_walked_paths_start_with_root(
    mountpoint: Seq<u8>,
    root: Seq<u8>,
    canonical: Seq<u8>,
    vpath: Seq<u8>,
)
    requires
        mountpoint.len() > 0,
        root.len() > 0,
        starts_with_spec(canonical, mountpoint),
        starts_with_spec(vpath, vf_path_spec(mountpoint, canonical)),
    ensures
        ({
            let asked = components(vf_path_spec(mountpoint, canonical));
            components(walked_path_spec(mountpoint, root, canonical, vpath)) == components(root)
                + components(vpath).skip(asked.len() as int)
        }),
{
    let slash = seq![SLASH];
    lemma_root();
    lemma_spans(mountpoint);
    let m = components(mountpoint).len() as int;
    lemma_tail_components(canonical, m);
    lemma_join_components(slash, tail_from(canonical, m));
    let asked = vf_path_spec(mountpoint, canonical);
    let n = components(asked).len() as int;
    lemma_tail_components(vpath, n);
    let rel = tail_from(vpath, n);
    let rest = components(vpath).skip(n);
    if rel.len() == 0 {
        assert(rel =~= Seq::empty());
        assert(body_components(rel) =~= Seq::empty());
    }
    if starts_with_spec(root, mountpoint) {
        lemma_tail_components(root, m);
        let t = tail_from(root, m);
        let v = vf_path_spec(mountpoint, root);
        lemma_join_components(slash, t);
        assert(components(v) =~= seq![Component::RootDir] + components(root).skip(m));
        assert(v.len() > 0);
        let w = below(v, rel);
        if rel.len() > 0 {
            lemma_join_components(v, rel);
        }
        assert(components(w) =~= components(v) + rest);
        assert(components(w).subrange(0, 1) =~= seq![Component::RootDir]);
        lemma_tail_components(w, 1);
        let back = tail_from(w, 1);
        lemma_join_components(mountpoint, back);
        assert(components(mountpoint) == components(root).subrange(0, m));
        assert(components(mountpoint) + components(w).skip(1) =~= components(root) + rest);
    } else {
        if rel.len() > 0 {
            lemma_join_components(root, rel);
        }
        assert(components(below(root, rel)) =~= components(root) + rest);
    }
}

/// Walked from a root that no link leads to, every directory has its own place
/// under the mount point.
pub proof fn law_walked_paths_lie_on_mount(mountpoint: Seq<u8>, root: Seq<u8>, vpath: Seq<u8>)
    requires
        mountpoint.len() > 0,
        starts_with_spec(root, mountpoint),
        starts_with_spec(vpath, vf_path_spec(mountpoint, root)),
    ensures
        components(walked_path_spec(mountpoint, root, root, vpath)) == components(
            kernel_path_spec(mountpoint, vpath),
        ),
{
    let slash = seq![SLASH];
    lemma_root();
    lemma_spans(mountpoint);
    let m = components(mountpoint).len() as int;
    lemma_spans(root);
    law_walked_paths_start_with_root(mountpoint, root, root, vpath);
    lemma_tail_components(root, m);
    lemma_join_components(slash, tail_from(root, m));
    let asked = components(vf_path_spec(mountpoint, root));
    assert(asked =~= seq![Component::RootDir] + components(root).skip(m));
    assert(components(vpath).subrange(0, 1) =~= seq![Component::RootDir]) by {
        assert(components(vpath)[0] == asked[0]);
    }
    lemma_tail_components(vpath, 1);
    lemma_join_components(mountpoint, tail_from(vpath, 1));
    assert(components(mountpoint) == components(root).subrange(0, m));
    let k = asked.len() as int;
    assert(components(vpath) =~= asked + components(vpath).skip(k)) by {
        assert(components(vpath).subrange(0, k) =~= asked);
    }
    assert(components(mountpoint) + components(vpath).skip(1) =~= components(root)
        + components(vpath).skip(k));
}

/// Why a path has no name on the server.
#[derive(Clone, Copy, Debug, PartialEq, Eq, Structural)]
pub enum VfPathError {
    OutsideMount,
    NoParent,
    NoFileName,
}

impl VfPathError {
    pub open spec fn message_spec(self) -> Seq<char> {
        match self {
            VfPathError::OutsideMount => "path is outside VFSI mount"@,
            VfPathError::NoParent => "destination has no parent"@,
            VfPathError::NoFileName => "destination has no file name"@,
        }
    }

    pub fn message(self) -> (r: &'static str)
        ensures
            r@ == self.message_spec(),
    {
        match self {
            VfPathError::OutsideMount => "path is outside VFSI mount",
            VfPathError::NoParent => "destination has no parent",
            VfPathError::NoFileName => "destination has no file name",
        }
    }
}

/// The server's name of a local absolute path.
pub open spec fn mounted_spec(absolute: Seq<u8>, mount: MountView) -> Option<Seq<u8>> {
    match strip_prefix_spec(absolute, mount.point) {
        Some(rel) => Some(join_spec(mount.export, rel)),
        None => None,
    }
}

/// The server's name of an existing path, given by its canonical form.
pub fn mounted_vf_path(absolute: &[u8], mount: &Mount) -> (r: Result<Vec<u8>, VfPathError>)
    ensures
        match r {
            Ok(p) => mounted_spec(absolute@, mount@) == Some(p@),
            Err(e) => mounted_spec(absolute@, mount@) is None && e == VfPathError::OutsideMount,
        },
{
    match strip_prefix(absolute, mount.point.as_slice()) {
        Some(rel) => Ok(join(mount.export.as_slice(), rel)),
        None => Err(VfPathError::OutsideMount),
    }
}

/// The directory that a new path is made in: it has to exist, the path need not.
pub fn destination_parent<'a>(path: &'a [u8]) -> (r: Result<&'a [u8], VfPathError>)
    ensures
        match r {
            Ok(p) => crate::path::parent_spec(path@) == Some(p@),
            Err(e) => crate::path::parent_spec(path@) is None && e == VfPathError::NoParent,
        },
{
    match crate::path::parent(path) {
        Some(p) => Ok(p),
        None => Err(VfPathError::NoParent),
    }
}

/// The server's name of a path that is still to be made, given the canonical
/// form of its parent.
pub fn new_mounted_vf_path(path: &[u8], canonical_parent: &[u8], mount: &Mount) -> (r: Result<
    Vec<u8>,
    VfPathError,
>)
    ensures
        match file_name_spec(path@) {
            None => r == Err::<Vec<u8>, VfPathError>(VfPathError::NoFileName),
            Some(name) => match mounted_spec(join_spec(canonical_parent@, name), mount@) {
                Some(p) => r matches Ok(v) && v@ == p,
                None => r == Err::<Vec<u8>, VfPathError>(VfPathError::OutsideMount),
            },
        },
{
    match file_name(path) {
        None => Err(VfPathError::NoFileName),
        Some(name) => {
            let absolute = join(canonical_parent, name);
            mounted_vf_path(absolute.as_slice(), mount)
        },
    }
}

/// A path on the mount lies, on the server, below the export by the same
/// components by which it lies below the mount point.
pub proof fn law_mounted_path_keeps_components(absolute: Seq<u8>, mount: MountView)
    requires
        mount.point.len() > 0,
        starts_with_spec(absolute, mount.point),
    ensures
        mounted_spec(absolute, mount) is Some,
        components(mounted_spec(absolute, mount)->0) == components(mount.export) + components(
            absolute,
        ).skip(components(mount.point).len() as int),
{
    let n = components(mount.point).len() as int;
    lemma_spans(mount.point);
    lemma_tail_components(absolute, n);
    let rel = tail_from(absolute, n);
    if mount.export.len() > 0 {
        lemma_join_components(mount.export, rel);
    } else {
        lemma_spans(mount.export);
        assert(join_spec(mount.export, rel) =~= rel);
        assert(components(mount.export) + components(rel) =~= components(rel));
    }
}

} // verus!
