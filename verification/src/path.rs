//! Paths as byte strings, taken apart the way `std::path` does on Unix.
//!
//! A path is cut at `/`. Empty segments and `.` segments do not count, except
//! that a relative path may begin with one `.`. Everything else here is stated
//! over the byte ranges ("spans") of the segments that do count.
use vstd::prelude::*;
use vstd::slice::slice_subrange;

verus! {

pub const SLASH: u8 = 47;

pub const DOT: u8 = 46;

/// One component of a path.
pub enum Component {
    RootDir,
    CurDir,
    ParentDir,
    Normal(Seq<u8>),
}

/// The first `/` at or after `i`, or the length of the path.
pub open spec fn segment_end(p: Seq<u8>, i: int) -> int
    decreases p.len() - i,
{
    if i < 0 || i >= p.len() {
        p.len() as int
    } else if p[i] == SLASH {
        i
    } else {
        segment_end(p, i + 1)
    }
}

/// Segments that are no component: nothing between two separators, and `.`.
pub open spec fn trivial(s: Seq<u8>) -> bool {
    s.len() == 0 || s =~= seq![DOT]
}

/// The byte ranges of the components of `p` from position `i` on, where `i`
/// is the start of a segment.
pub open spec fn body_spans(p: Seq<u8>, i: int) -> Seq<(int, int)>
    decreases p.len() + 1 - i,
{
    if i < 0 || i >= p.len() {
        Seq::empty()
    } else {
        proof {
            lemma_segment_end(p, i);
        }
        let j = segment_end(p, i);
        (if trivial(p.subrange(i, j)) {
            Seq::empty()
        } else {
            seq![(i, j)]
        }) + body_spans(p, j + 1)
    }
}

/// Whether the path is relative and its first segment is `.`.
pub open spec fn starts_with_dot_segment(p: Seq<u8>) -> bool {
    p.len() > 0 && p[0] == DOT && (p.len() == 1 || p[1] == SLASH)
}

pub open spec fn is_absolute_spec(p: Seq<u8>) -> bool {
    p.len() > 0 && p[0] == SLASH
}

/// Whether the first byte is a component of its own: `/`, or a leading `.`.
pub open spec fn has_head(p: Seq<u8>) -> bool {
    is_absolute_spec(p) || starts_with_dot_segment(p)
}

/// The byte ranges of all components of `p`, left to right.
pub open spec fn spans_spec(p: Seq<u8>) -> Seq<(int, int)> {
    if has_head(p) {
        seq![(0int, 1int)] + body_spans(p, 1)
    } else {
        body_spans(p, 0)
    }
}

/// The component that a segment spells.
pub open spec fn component_of(s: Seq<u8>) -> Component {
    if s =~= seq![SLASH] {
        Component::RootDir
    } else if s =~= seq![DOT] {
        Component::CurDir
    } else if s =~= seq![DOT, DOT] {
        Component::ParentDir
    } else {
        Component::Normal(s)
    }
}

pub open spec fn components_at(p: Seq<u8>, spans: Seq<(int, int)>) -> Seq<Component> {
    Seq::new(spans.len(), |k: int| component_of(p.subrange(spans[k].0, spans[k].1)))
}

/// The components of a path.
pub open spec fn components(p: Seq<u8>) -> Seq<Component> {
    components_at(p, spans_spec(p))
}

/// Whether `base` is a leading part of `p`, component by component.
pub open spec fn starts_with_spec(p: Seq<u8>, base: Seq<u8>) -> bool {
    components(base).is_prefix_of(components(p))
}

/// What is left of `p` once the components of `base` are taken off its front:
/// the bytes from the first component that is left to the end of the last one.
pub open spec fn strip_prefix_spec(p: Seq<u8>, base: Seq<u8>) -> Option<Seq<u8>> {
    if !starts_with_spec(p, base) {
        None
    } else {
        Some(tail_from(p, components(base).len() as int))
    }
}

/// The bytes of `p` from component `n` to the end of the last component.
pub open spec fn tail_from(p: Seq<u8>, n: int) -> Seq<u8> {
    if n >= spans_spec(p).len() {
        Seq::empty()
    } else {
        p.subrange(spans_spec(p)[n].0, spans_spec(p).last().1)
    }
}

/// `a` followed by `b`, with one `/` between them where there is none; an
/// absolute `b` replaces `a`.
pub open spec fn join_spec(a: Seq<u8>, b: Seq<u8>) -> Seq<u8> {
    if is_absolute_spec(b) {
        b
    } else if a.len() > 0 && a.last() != SLASH {
        a.push(SLASH) + b
    } else {
        a + b
    }
}

/// The path without its last component; none for a root and for the empty path.
pub open spec fn parent_spec(p: Seq<u8>) -> Option<Seq<u8>> {
    let spans = spans_spec(p);
    if spans.len() == 0 || components(p).last() == Component::RootDir {
        None
    } else if spans.len() == 1 {
        Some(Seq::empty())
    } else {
        Some(p.subrange(0, spans[spans.len() - 2].1))
    }
}

/// The last component, where it is an ordinary name.
pub open spec fn file_name_spec(p: Seq<u8>) -> Option<Seq<u8>> {
    if components(p).len() == 0 {
        None
    } else {
        match components(p).last() {
            Component::Normal(name) => Some(name),
            _ => None,
        }
    }
}

/// The position of the last `.`, or -1.
pub open spec fn last_dot(s: Seq<u8>) -> int
    decreases s.len(),
{
    if s.len() == 0 {
        -1
    } else if s.last() == DOT {
        s.len() - 1
    } else {
        last_dot(s.drop_last())
    }
}

/// The part of the file name behind its last `.`; a `.` in front does not count.
pub open spec fn extension_spec(p: Seq<u8>) -> Option<Seq<u8>> {
    match file_name_spec(p) {
        Some(name) if last_dot(name) > 0 => Some(name.skip(last_dot(name) + 1)),
        _ => None,
    }
}

/// The file name without its extension.
pub open spec fn file_stem_spec(p: Seq<u8>) -> Option<Seq<u8>> {
    match file_name_spec(p) {
        Some(name) => Some(
            if last_dot(name) > 0 {
                name.take(last_dot(name))
            } else {
                name
            },
        ),
        None => None,
    }
}

/// Whether `s` can stand as one ordinary component of a path.
pub open spec fn is_plain_name(s: Seq<u8>) -> bool {
    &&& !s.contains(SLASH)
    &&& !trivial(s)
    &&& s != seq![DOT, DOT]
}

// ---------------------------------------------------------------------------
// Facts about segments and spans
// ---------------------------------------------------------------------------

pub proof fn lemma_segment_end(p: Seq<u8>, i: int)
    requires
        0 <= i <= p.len(),
    ensures
        i <= segment_end(p, i) <= p.len(),
        forall|k: int| i <= k < segment_end(p, i) ==> p[k] != SLASH,
        segment_end(p, i) < p.len() ==> p[segment_end(p, i)] == SLASH,
    decreases p.len() - i,
{
    if i < p.len() && p[i] != SLASH {
        lemma_segment_end(p, i + 1);
    }
}

/// A span is a maximal run of bytes without `/`, at or after the start.
pub open spec fn span_ok(p: Seq<u8>, from: int, s: (int, int)) -> bool {
    &&& from <= s.0 < s.1 <= p.len()
    &&& s.0 > 0 ==> p[s.0 - 1] == SLASH || s.0 == from
    &&& s.1 < p.len() ==> p[s.1] == SLASH
    &&& !trivial(p.subrange(s.0, s.1))
    &&& forall|k: int| s.0 <= k < s.1 ==> p[k] != SLASH
}

pub proof fn lemma_body_spans(p: Seq<u8>, i: int)
    requires
        0 <= i,
    ensures
        forall|k: int| 0 <= k < body_spans(p, i).len() ==> span_ok(p, i, #[trigger] body_spans(p, i)[k]),
        forall|k: int, l: int|
            0 <= k < l < body_spans(p, i).len() ==> (#[trigger] body_spans(p, i)[k]).1
                < (#[trigger] body_spans(p, i)[l]).0,
    decreases p.len() + 1 - i,
{
    if i < p.len() {
        lemma_segment_end(p, i);
        let j = segment_end(p, i);
        lemma_body_spans(p, j + 1);
        let head = if trivial(p.subrange(i, j)) {
            Seq::<(int, int)>::empty()
        } else {
            seq![(i, j)]
        };
        let rest = body_spans(p, j + 1);
        assert(body_spans(p, i) == head + rest);
        assert forall|k: int| 0 <= k < body_spans(p, i).len() implies span_ok(
            p,
            i,
            #[trigger] body_spans(p, i)[k],
        ) by {
            if k >= head.len() {
                assert(body_spans(p, i)[k] == rest[k - head.len()]);
                assert(span_ok(p, j + 1, rest[k - head.len()]));
            }
        }
        assert forall|k: int, l: int| 0 <= k < l < body_spans(p, i).len() implies (
        #[trigger] body_spans(p, i)[k]).1 < (#[trigger] body_spans(p, i)[l]).0 by {
            assert(body_spans(p, i)[l] == rest[l - head.len()]);
            assert(span_ok(p, j + 1, rest[l - head.len()]));
            if k >= head.len() {
                assert(body_spans(p, i)[k] == rest[k - head.len()]);
            }
        }
    }
}

// ---------------------------------------------------------------------------
// Taking paths apart
// ---------------------------------------------------------------------------

pub open spec fn spans_view(v: Seq<(usize, usize)>) -> Seq<(int, int)> {
    Seq::new(v.len(), |k: int| (v[k].0 as int, v[k].1 as int))
}

/// The byte ranges of the components of `p`.
pub fn spans(p: &[u8]) -> (r: Vec<(usize, usize)>)
    ensures
        spans_view(r@) == spans_spec(p@),
{
    let n: usize = p.len();
    let mut out: Vec<(usize, usize)> = Vec::new();
    let mut i: usize = 0;
    if n > 0 && (p[0] == SLASH || (p[0] == DOT && (n == 1 || p[1] == SLASH))) {
        out.push((0, 1));
        i = 1;
    }
    assert(spans_view(out@) + body_spans(p@, i as int) =~= spans_spec(p@));
    while i < n
        invariant
            n == p@.len(),
            i <= n,
            spans_view(out@) + body_spans(p@, i as int) == spans_spec(p@),
        decreases n - i,
    {
        let mut j: usize = i;
        while j < n && p[j] != SLASH
            invariant
                n == p@.len(),
                i <= j <= n,
                segment_end(p@, i as int) == segment_end(p@, j as int),
            decreases n - j,
        {
            j = j + 1;
        }
        let ghost seg = p@.subrange(i as int, j as int);
        let ghost before = out@;
        if !(j == i || (j == i + 1 && p[i] == DOT)) {
            assert(!trivial(seg)) by {
                if seg =~= seq![DOT] {
                    assert(seg.len() == 1);
                    assert(seg[0] == DOT);
                }
            }
            out.push((i, j));
            assert(spans_view(out@) =~= spans_view(before).push((i as int, j as int)));
        } else {
            assert(trivial(seg));
        }
        let ghost head = if trivial(seg) {
            Seq::<(int, int)>::empty()
        } else {
            seq![(i as int, j as int)]
        };
        assert(body_spans(p@, i as int) == head + body_spans(p@, j as int + 1));
        assert(spans_view(out@) =~= spans_view(before) + head);
        i = if j < n {
            j + 1
        } else {
            n
        };
        assert(body_spans(p@, i as int) == body_spans(p@, j as int + 1));
        assert(spans_view(out@) + body_spans(p@, i as int) =~= spans_view(before) + (head
            + body_spans(p@, i as int)));
    }
    assert(spans_view(out@) =~= spans_spec(p@));
    out
}

/// Whether two byte strings are the same.
pub fn bytes_eq(a: &[u8], b: &[u8]) -> (r: bool)
    ensures
        r == (a@ == b@),
{
    if a.len() != b.len() {
        return false;
    }
    let n: usize = a.len();
    let mut i: usize = 0;
    while i < n
        invariant
            n == a@.len(),
            n == b@.len(),
            i <= n,
            forall|k: int| 0 <= k < i ==> a@[k] == b@[k],
        decreases n - i,
    {
        if a[i] != b[i] {
            return false;
        }
        i = i + 1;
    }
    assert(a@ =~= b@);
    true
}

pub proof fn lemma_component_of_injective(a: Seq<u8>, b: Seq<u8>)
    ensures
        component_of(a) == component_of(b) <==> a == b,
{
    if component_of(a) == component_of(b) {
        assert(a =~= b);
    }
}

/// All spans of a path lie in it, one after another, none empty.
pub proof fn lemma_spans(p: Seq<u8>)
    ensures
        forall|k: int|
            0 <= k < spans_spec(p).len() ==> 0 <= (#[trigger] spans_spec(p)[k]).0
                < spans_spec(p)[k].1 <= p.len(),
        forall|k: int, l: int|
            0 <= k < l < spans_spec(p).len() ==> (#[trigger] spans_spec(p)[k]).1 <= (
            #[trigger] spans_spec(p)[l]).0,
        spans_spec(p).len() > 0 <==> p.len() > 0,
        spans_spec(p).len() > 0 ==> spans_spec(p)[0].0 == 0,
{
    let s = spans_spec(p);
    if has_head(p) {
        lemma_body_spans(p, 1);
        let b = body_spans(p, 1);
        assert forall|k: int| 0 <= k < s.len() implies 0 <= (#[trigger] s[k]).0 < s[k].1
            <= p.len() by {
            if k > 0 {
                assert(span_ok(p, 1, b[k - 1]));
            }
        }
        assert forall|k: int, l: int| 0 <= k < l < s.len() implies (#[trigger] s[k]).1 <= (
        #[trigger] s[l]).0 by {
            assert(span_ok(p, 1, b[l - 1]));
            if k > 0 {
                assert(b[k - 1].1 < b[l - 1].0);
            }
        }
    } else {
        lemma_body_spans(p, 0);
        let b = body_spans(p, 0);
        assert forall|k: int| 0 <= k < s.len() implies 0 <= (#[trigger] s[k]).0 < s[k].1
            <= p.len() by {
            assert(span_ok(p, 0, b[k]));
        }
        if p.len() > 0 {
            lemma_segment_end(p, 0);
            let j = segment_end(p, 0);
            assert(j > 0);
            if trivial(p.subrange(0, j)) {
                assert(p.subrange(0, j)[0] == p[0]);
                assert(j == 1);
            }
            assert(b[0] == (0int, j));
        }
    }
}

/// Whether the first components of `p` are those of `base`.
pub fn starts_with(p: &[u8], base: &[u8]) -> (r: bool)
    ensures
        r == starts_with_spec(p@, base@),
{
    let ps = spans(p);
    let bs = spans(base);
    proof {
        lemma_spans(p@);
        lemma_spans(base@);
    }
    if bs.len() > ps.len() {
        assert(components(base@).len() > components(p@).len());
        return false;
    }
    let n: usize = bs.len();
    let mut k: usize = 0;
    while k < n
        invariant
            n == bs@.len(),
            n <= ps@.len(),
            k <= n,
            spans_view(ps@) == spans_spec(p@),
            spans_view(bs@) == spans_spec(base@),
            forall|l: int| 0 <= l < k ==> components(p@)[l] == components(base@)[l],
        decreases n - k,
    {
        let (a, b) = ps[k];
        let (c, d) = bs[k];
        proof {
            lemma_spans(p@);
            lemma_spans(base@);
            assert(spans_spec(p@)[k as int] == spans_view(ps@)[k as int]);
            assert(spans_spec(base@)[k as int] == spans_view(bs@)[k as int]);
            lemma_component_of_injective(
                p@.subrange(a as int, b as int),
                base@.subrange(c as int, d as int),
            );
        }
        if !bytes_eq(slice_subrange(p, a, b), slice_subrange(base, c, d)) {
            assert(components(p@)[k as int] != components(base@)[k as int]);
            return false;
        }
        k = k + 1;
    }
    assert(components(base@) =~= components(p@).subrange(0, n as int));
    true
}

/// Whether two paths have the same components.
pub fn same_path(a: &[u8], b: &[u8]) -> (r: bool)
    ensures
        r == (components(a@) == components(b@)),
{
    let sa = spans(a);
    let sb = spans(b);
    assert(components(a@).len() == spans_view(sa@).len());
    assert(components(b@).len() == spans_view(sb@).len());
    let r = sa.len() == sb.len() && starts_with(a, b);
    if r {
        assert(components(a@) =~= components(b@));
    }
    r
}

/// What is left of `p` below `base`.
pub fn strip_prefix<'a>(p: &'a [u8], base: &[u8]) -> (r: Option<&'a [u8]>)
    ensures
        (r matches Some(rest) ==> strip_prefix_spec(p@, base@) == Some(rest@)),
        (r is None ==> strip_prefix_spec(p@, base@) is None),
{
    if !starts_with(p, base) {
        return None;
    }
    let ps = spans(p);
    let n: usize = spans(base).len();
    proof {
        lemma_spans(p@);
        assert(components(base@).len() == n);
        assert(components(p@).len() == ps@.len());
    }
    if n >= ps.len() {
        let rest = slice_subrange(p, 0, 0);
        assert(rest@ =~= Seq::<u8>::empty());
        return Some(rest);
    }
    let last: usize = ps.len() - 1;
    proof {
        assert(spans_spec(p@)[n as int] == spans_view(ps@)[n as int]);
        assert(spans_spec(p@)[last as int] == spans_view(ps@)[last as int]);
    }
    Some(slice_subrange(p, ps[n].0, ps[last].1))
}

/// Appends bytes to a vector.
pub fn push_bytes(out: &mut Vec<u8>, bytes: &[u8])
    ensures
        final(out)@ == old(out)@ + bytes@,
{
    let ghost before = out@;
    let n: usize = bytes.len();
    let mut i: usize = 0;
    while i < n
        invariant
            n == bytes@.len(),
            i <= n,
            out@ == before + bytes@.subrange(0, i as int),
        decreases n - i,
    {
        out.push(bytes[i]);
        i = i + 1;
        assert(bytes@.subrange(0, i as int) =~= bytes@.subrange(0, i - 1).push(bytes@[i - 1]));
        assert(out@ =~= before + bytes@.subrange(0, i as int));
    }
    assert(bytes@.subrange(0, n as int) =~= bytes@);
}

/// A copy of a byte string.
pub fn copy_bytes(bytes: &[u8]) -> (r: Vec<u8>)
    ensures
        r@ == bytes@,
{
    let mut out: Vec<u8> = Vec::new();
    push_bytes(&mut out, bytes);
    assert(Seq::<u8>::empty() + bytes@ =~= bytes@);
    out
}

/// The path `b` taken from `a`.
pub fn join(a: &[u8], b: &[u8]) -> (r: Vec<u8>)
    ensures
        r@ == join_spec(a@, b@),
{
    if b.len() > 0 && b[0] == SLASH {
        return copy_bytes(b);
    }
    let mut out: Vec<u8> = copy_bytes(a);
    if a.len() > 0 && a[a.len() - 1] != SLASH {
        out.push(SLASH);
    }
    push_bytes(&mut out, b);
    out
}

/// The path without its last component.
pub fn parent<'a>(p: &'a [u8]) -> (r: Option<&'a [u8]>)
    ensures
        (r matches Some(rest) ==> parent_spec(p@) == Some(rest@)),
        (r is None ==> parent_spec(p@) is None),
{
    let ps = spans(p);
    let n: usize = ps.len();
    proof {
        lemma_spans(p@);
        assert(components(p@).len() == n);
    }
    if n == 0 {
        return None;
    }
    let (a, b) = ps[n - 1];
    proof {
        assert(spans_spec(p@)[n - 1] == spans_view(ps@)[n - 1]);
    }
    if b == a + 1 && p[a] == SLASH {
        assert(p@.subrange(a as int, b as int) =~= seq![SLASH]);
        return None;
    }
    assert(p@.subrange(a as int, b as int) != seq![SLASH]) by {
        if p@.subrange(a as int, b as int) == seq![SLASH] {
            assert(p@.subrange(a as int, b as int).len() == 1);
            assert(p@.subrange(a as int, b as int)[0] == SLASH);
        }
    }
    if n == 1 {
        let rest = slice_subrange(p, 0, 0);
        assert(rest@ =~= Seq::<u8>::empty());
        return Some(rest);
    }
    proof {
        assert(spans_spec(p@)[n - 2] == spans_view(ps@)[n - 2]);
    }
    Some(slice_subrange(p, 0, ps[n - 2].1))
}

/// The last component, where it is an ordinary name.
pub fn file_name<'a>(p: &'a [u8]) -> (r: Option<&'a [u8]>)
    ensures
        (r matches Some(name) ==> file_name_spec(p@) == Some(name@)),
        (r is None ==> file_name_spec(p@) is None),
{
    let ps = spans(p);
    let n: usize = ps.len();
    proof {
        lemma_spans(p@);
        assert(components(p@).len() == n);
    }
    if n == 0 {
        return None;
    }
    let (a, b) = ps[n - 1];
    proof {
        assert(spans_spec(p@)[n - 1] == spans_view(ps@)[n - 1]);
    }
    let ghost s = p@.subrange(a as int, b as int);
    if b == a + 1 && (p[a] == SLASH || p[a] == DOT) {
        assert(s =~= seq![p@[a as int]]);
        return None;
    }
    if b - a == 2 && p[a] == DOT && p[a + 1] == DOT {
        assert(s =~= seq![DOT, DOT]);
        return None;
    }
    assert(s != seq![SLASH] && s != seq![DOT] && s != seq![DOT, DOT]) by {
        if s == seq![SLASH] || s == seq![DOT] {
            assert(s.len() == 1);
            assert(s[0] == p@[a as int]);
        }
        if s == seq![DOT, DOT] {
            assert(s.len() == 2);
            assert(s[0] == p@[a as int] && s[1] == p@[a + 1]);
        }
    }
    Some(slice_subrange(p, a, b))
}

/// The position of the last `.` in a name, where there is one behind its first byte.
fn extension_dot(name: &[u8]) -> (r: Option<usize>)
    ensures
        match r {
            Some(k) => 0 < k < name@.len() && last_dot(name@) == k,
            None => last_dot(name@) <= 0,
        },
{
    let mut i: usize = name.len();
    assert(name@.take(i as int) =~= name@);
    while i > 0
        invariant
            i <= name@.len(),
            last_dot(name@) == last_dot(name@.take(i as int)),
        decreases i,
    {
        if name[i - 1] == DOT {
            return if i > 1 {
                Some(i - 1)
            } else {
                None
            };
        }
        assert(name@.take(i as int).drop_last() =~= name@.take(i - 1));
        i = i - 1;
    }
    None
}

/// The extension of the file name.
pub fn extension<'a>(p: &'a [u8]) -> (r: Option<&'a [u8]>)
    ensures
        (r matches Some(e) ==> extension_spec(p@) == Some(e@)),
        (r is None ==> extension_spec(p@) is None),
{
    match file_name(p) {
        None => None,
        Some(name) => match extension_dot(name) {
            None => None,
            Some(k) => {
                let n: usize = name.len();
                let e = slice_subrange(name, k + 1, n);
                assert(e@ =~= name@.skip(k + 1));
                Some(e)
            },
        },
    }
}

/// The file name without its extension.
pub fn file_stem<'a>(p: &'a [u8]) -> (r: Option<&'a [u8]>)
    ensures
        (r matches Some(e) ==> file_stem_spec(p@) == Some(e@)),
        (r is None ==> file_stem_spec(p@) is None),
{
    match file_name(p) {
        None => None,
        Some(name) => match extension_dot(name) {
            None => Some(name),
            Some(k) => {
                let e = slice_subrange(name, 0, k);
                assert(e@ =~= name@.take(k as int));
                Some(e)
            },
        },
    }
}

// ---------------------------------------------------------------------------
// Laws of joining and stripping
// ---------------------------------------------------------------------------

pub open spec fn shift(spans: Seq<(int, int)>, by: int) -> Seq<(int, int)> {
    Seq::new(spans.len(), |k: int| (spans[k].0 + by, spans[k].1 + by))
}

/// The spans of a tail are the spans behind what was put in front, moved.
proof fn lemma_body_spans_shift(a: Seq<u8>, n: Seq<u8>, i: int)
    requires
        0 <= i,
    ensures
        body_spans(a + n, a.len() + i) == shift(body_spans(n, i), a.len() as int),
    decreases n.len() + 1 - i,
{
    let q = a + n;
    if i < n.len() {
        lemma_segment_end_shift(a, n, i);
        lemma_segment_end(n, i);
        let j = segment_end(n, i);
        lemma_body_spans_shift(a, n, j + 1);
        assert(q.subrange(a.len() + i, a.len() + j) =~= n.subrange(i, j));
        assert(body_spans(q, a.len() + i) =~= shift(body_spans(n, i), a.len() as int));
    } else {
        assert(body_spans(q, a.len() + i) =~= shift(body_spans(n, i), a.len() as int));
    }
}

proof fn lemma_segment_end_shift(a: Seq<u8>, n: Seq<u8>, i: int)
    requires
        0 <= i <= n.len(),
    ensures
        segment_end(a + n, a.len() + i) == a.len() + segment_end(n, i),
    decreases n.len() - i,
{
    if i < n.len() && n[i] != SLASH {
        lemma_segment_end_shift(a, n, i + 1);
    }
}

/// Where the first path stops short of a separator, segments of the longer one
/// end where they did.
proof fn lemma_segment_end_prefix(d: Seq<u8>, n: Seq<u8>, i: int)
    requires
        0 <= i <= d.len(),
    ensures
        segment_end(d.push(SLASH) + n, i) == segment_end(d, i),
    decreases d.len() - i,
{
    if i < d.len() && d[i] != SLASH {
        lemma_segment_end_prefix(d, n, i + 1);
    }
}

/// `d/n` has the spans of `d`, then those of `n`.
proof fn lemma_body_spans_concat(d: Seq<u8>, n: Seq<u8>, i: int)
    requires
        0 <= i <= d.len() + 1,
    ensures
        body_spans(d.push(SLASH) + n, i) == body_spans(d, i) + shift(
            body_spans(n, 0),
            d.len() as int + 1,
        ),
    decreases d.len() + 1 - i,
{
    let q = d.push(SLASH) + n;
    if i <= d.len() {
        lemma_segment_end_prefix(d, n, i);
        lemma_segment_end(d, i);
        let j = segment_end(d, i);
        lemma_body_spans_concat(d, n, j + 1);
        assert(q.subrange(i, j) =~= d.subrange(i, j));
        if i == d.len() {
            assert(trivial(q.subrange(i, j)));
            assert(body_spans(d, i) =~= body_spans(d, j + 1));
        }
        assert(body_spans(q, i) =~= body_spans(d, i) + shift(body_spans(n, 0), d.len() as int + 1));
    } else {
        lemma_body_spans_shift(d.push(SLASH), n, 0);
        assert(body_spans(d, i) =~= Seq::empty());
        assert(body_spans(q, i) =~= body_spans(d, i) + shift(body_spans(n, 0), d.len() as int + 1));
    }
}

/// The components of a relative path that another one is joined in front of:
/// a leading `.` no longer counts.
pub open spec fn body_components(n: Seq<u8>) -> Seq<Component> {
    components_at(n, body_spans(n, 0))
}

pub proof fn lemma_components_slash(d: Seq<u8>, n: Seq<u8>)
    requires
        d.len() > 0,
    ensures
        components(d.push(SLASH) + n) == components(d) + body_components(n),
{
    let q = d.push(SLASH) + n;
    let off = d.len() as int + 1;
    lemma_body_spans(d, 0);
    lemma_body_spans(d, 1);
    lemma_body_spans(n, 0);
    assert forall|s: (int, int)| 0 <= s.0 <= s.1 <= n.len() implies #[trigger] q.subrange(
        s.0 + off,
        s.1 + off,
    ) == n.subrange(s.0, s.1) by {
        assert(q.subrange(s.0 + off, s.1 + off) =~= n.subrange(s.0, s.1));
    }
    assert forall|a: int, b: int| 0 <= a <= b <= d.len() implies #[trigger] q.subrange(a, b)
        == d.subrange(a, b) by {
        assert(q.subrange(a, b) =~= d.subrange(a, b));
    }
    let ns = body_spans(n, 0);
    lemma_body_spans_concat(d, n, if has_head(d) { 1 } else { 0 });
    assert(has_head(q) == has_head(d));
    assert(spans_spec(q) =~= spans_spec(d) + shift(ns, off));
    lemma_spans(d);
    assert forall|k: int| 0 <= k < spans_spec(q).len() implies components(q)[k] == (
    components(d) + body_components(n))[k] by {
        if k < spans_spec(d).len() {
            let s = spans_spec(d)[k];
            assert(spans_spec(q)[k] == s);
            assert(q.subrange(s.0, s.1) == d.subrange(s.0, s.1));
        } else {
            let s = ns[k - spans_spec(d).len()];
            assert(span_ok(n, 0, s));
            assert(spans_spec(q)[k] == (s.0 + off, s.1 + off));
            assert(q.subrange(s.0 + off, s.1 + off) == n.subrange(s.0, s.1));
        }
    }
    assert(components(q) =~= components(d) + body_components(n));
}

/// The components of a joined path are those of the first path, then those of
/// the second.
pub proof fn lemma_join_components(d: Seq<u8>, n: Seq<u8>)
    requires
        d.len() > 0,
        !is_absolute_spec(n),
    ensures
        components(join_spec(d, n)) == components(d) + body_components(n),
{
    if d.last() != SLASH {
        lemma_components_slash(d, n);
    } else {
        let e = d.drop_last();
        assert(e.push(SLASH) =~= d);
        assert(e.push(SLASH) + n =~= d + n);
        let empty = Seq::<u8>::empty();
        assert(e.push(SLASH) + empty =~= d);
        assert(body_components(empty) =~= Seq::empty());
        if e.len() > 0 {
            lemma_components_slash(e, n);
            lemma_components_slash(e, empty);
            assert(components(d) =~= components(e));
        } else {
            lemma_components_slash_root(n);
            lemma_components_slash_root(empty);
            assert(e =~= empty);
            assert(components(d) =~= seq![Component::RootDir]);
        }
    }
}

/// The components of `/n`.
pub proof fn lemma_components_slash_root(n: Seq<u8>)
    ensures
        components(seq![SLASH] + n) == seq![Component::RootDir] + body_components(n),
{
    let q = seq![SLASH] + n;
    let ns = body_spans(n, 0);
    lemma_body_spans(n, 0);
    lemma_body_spans_shift(seq![SLASH], n, 0);
    assert(spans_spec(q) =~= seq![(0int, 1int)] + shift(ns, 1));
    assert forall|k: int| 0 <= k < spans_spec(q).len() implies components(q)[k] == (
    seq![Component::RootDir] + body_components(n))[k] by {
        if k > 0 {
            let s = ns[k - 1];
            assert(span_ok(n, 0, s));
            assert(spans_spec(q)[k] == (s.0 + 1, s.1 + 1));
            assert(q.subrange(s.0 + 1, s.1 + 1) =~= n.subrange(s.0, s.1));
        } else {
            assert(q.subrange(0, 1) =~= seq![SLASH]);
        }
    }
    assert(components(q) =~= seq![Component::RootDir] + body_components(n));
}

/// A run of spans can be picked up at any of them.
proof fn lemma_body_spans_skip(p: Seq<u8>, i: int, k: int)
    requires
        0 <= i,
        0 <= k < body_spans(p, i).len(),
    ensures
        body_spans(p, body_spans(p, i)[k].0) == body_spans(p, i).skip(k),
    decreases p.len() + 1 - i,
{
    lemma_segment_end(p, i);
    let j = segment_end(p, i);
    let rest = body_spans(p, j + 1);
    if trivial(p.subrange(i, j)) {
        assert(body_spans(p, i) =~= rest);
        lemma_body_spans_skip(p, j + 1, k);
    } else if k == 0 {
        assert(body_spans(p, i)[0].0 == i);
        assert(body_spans(p, i).skip(0) =~= body_spans(p, i));
    } else {
        assert(body_spans(p, i) =~= seq![(i, j)] + rest);
        lemma_body_spans_skip(p, j + 1, k - 1);
        assert(body_spans(p, i).skip(k) =~= rest.skip(k - 1));
    }
}

/// Nothing counts behind the last span.
proof fn lemma_cut_after_last(m: Seq<u8>)
    requires
        body_spans(m, 0).len() > 0,
    ensures
        0 < body_spans(m, 0).last().1 <= m.len(),
        body_spans(m.subrange(0, body_spans(m, 0).last().1), 0) == body_spans(m, 0),
{
    let all = body_spans(m, 0);
    let e = all.last().1;
    lemma_body_spans(m, 0);
    assert(span_ok(m, 0, all.last()));
    let rest = m.subrange(0, e);
    if e < m.len() {
        let post = m.subrange(e + 1, m.len() as int);
        assert(rest.push(SLASH) + post =~= m);
        lemma_body_spans_concat(rest, post, 0);
        lemma_body_spans(post, 0);
        let tail = shift(body_spans(post, 0), e + 1);
        if tail.len() > 0 {
            assert(span_ok(post, 0, body_spans(post, 0).last()));
            assert(all.last() == tail.last());
        }
        assert(all =~= body_spans(rest, 0));
    } else {
        assert(rest =~= m);
    }
}

/// The spans of the bytes from one span to the last are those spans, moved.
proof fn lemma_tail_spans(p: Seq<u8>, h: int, k: int)
    requires
        0 <= h,
        0 <= k < body_spans(p, h).len(),
    ensures
        ({
            let all = body_spans(p, h);
            &&& h <= all[k].0 < all.last().1 <= p.len()
            &&& shift(
                body_spans(p.subrange(all[k].0, all.last().1), 0),
                all[k].0,
            ) == all.skip(k)
        }),
{
    let all = body_spans(p, h);
    let a = all[k].0;
    let b = all.last().1;
    assert(h <= a < b <= p.len()) by {
        lemma_body_spans(p, h);
        assert(span_ok(p, h, all[k]));
        assert(span_ok(p, h, all.last()));
        if k < all.len() - 1 {
            assert(all[k].1 < all[all.len() - 1].0);
        }
    }
    let front = p.subrange(0, a);
    let m = p.subrange(a, p.len() as int);
    assert(shift(body_spans(m, 0), a) == all.skip(k)) by {
        lemma_body_spans_skip(p, h, k);
        assert(front + m =~= p);
        lemma_body_spans_shift(front, m, 0);
    }
    let mine = body_spans(m, 0);
    assert(mine.len() == all.len() - k) by {
        assert(shift(mine, a).len() == all.skip(k).len());
    }
    assert(mine.last().1 == b - a) by {
        assert(shift(mine, a)[mine.len() - 1] == all.skip(k)[mine.len() - 1]);
    }
    lemma_cut_after_last(m);
    assert(m.subrange(0, b - a) =~= p.subrange(a, b));
}

/// A path that is cut off behind one of its spans has the spans up to there.
proof fn lemma_cut_at(p: Seq<u8>, h: int, k: int)
    requires
        0 <= h,
        0 <= k < body_spans(p, h).len(),
    ensures
        h < body_spans(p, h)[k].1 <= p.len(),
        body_spans(p.subrange(0, body_spans(p, h)[k].1), h) == body_spans(p, h).take(k + 1),
{
    let all = body_spans(p, h);
    let e = all[k].1;
    lemma_body_spans(p, h);
    assert(span_ok(p, h, all[k]));
    let q = p.subrange(0, e);
    if e == p.len() {
        assert(q =~= p);
        if k + 1 < all.len() {
            assert(all[k].1 < all[k + 1].0);
            assert(span_ok(p, h, all[k + 1]));
        }
        assert(all.take(k + 1) =~= all);
    } else {
        let post = p.subrange(e + 1, p.len() as int);
        assert(q.push(SLASH) + post =~= p);
        lemma_body_spans_concat(q, post, h);
        lemma_body_spans(q, h);
        lemma_body_spans(post, 0);
        let front = body_spans(q, h);
        let back = shift(body_spans(post, 0), e + 1);
        assert(all == front + back);
        if front.len() <= k {
            let s = body_spans(post, 0)[k - front.len()];
            assert(span_ok(post, 0, s));
            assert(all[k] == back[k - front.len()]);
        }
        if front.len() > k + 1 {
            assert(all[k + 1] == front[k + 1]);
            assert(span_ok(q, h, front[k + 1]));
            assert(all[k].1 < all[k + 1].0);
        }
        assert(all.take(k + 1) =~= front);
    }
}

/// The parent of a path has all its components but the last.
pub proof fn law_parent_drops_last_component(p: Seq<u8>)
    requires
        parent_spec(p) is Some,
    ensures
        components(p).len() > 0,
        components(parent_spec(p)->0) == components(p).drop_last(),
{
    let s = spans_spec(p);
    let n = s.len() as int;
    lemma_spans(p);
    if n == 1 {
        assert(components(p).drop_last() =~= Seq::empty());
        lemma_spans(Seq::<u8>::empty());
        assert(components(Seq::<u8>::empty()) =~= Seq::empty());
    } else {
        let h: int = if has_head(p) {
            1
        } else {
            0
        };
        let all = body_spans(p, h);
        let e = s[n - 2].1;
        let q = p.subrange(0, e);
        assert(parent_spec(p) == Some(q));
        assert(spans_spec(q) =~= s.drop_last()) by {
            if n - 2 < h {
                assert(e == 1);
                assert(q.len() == 1 && q[0] == p[0]);
                assert(has_head(q));
                assert(body_spans(q, 1) =~= Seq::empty());
            } else {
                let k = n - 2 - h;
                assert(s[n - 2] == all[k]);
                lemma_cut_at(p, h, k);
                lemma_body_spans(p, h);
                assert(span_ok(p, h, all[k]));
                assert(q[0] == p[0]);
                if has_head(p) {
                    assert(e > 1);
                    assert(q[1] == p[1]);
                    assert(has_head(q));
                } else {
                    if e == 1 {
                        assert(p.subrange(all[k].0, all[k].1) =~= seq![p[0]]);
                    } else {
                        assert(q[1] == p[1]);
                    }
                    assert(!has_head(q));
                }
                assert(spans_spec(q) =~= s.take(n - 1));
            }
        }
        assert forall|k: int| 0 <= k < n - 1 implies components(q)[k] == components(
            p,
        ).drop_last()[k] by {
            assert(spans_spec(q)[k] == s[k]);
            assert(s[k].1 <= e) by {
                if k < n - 2 {
                    assert(s[k].1 <= s[n - 2].0);
                }
            }
            assert(q.subrange(s[k].0, s[k].1) =~= p.subrange(s[k].0, s[k].1));
        }
        assert(components(q) =~= components(p).drop_last());
    }
}

/// A path with a file name is that name in the parent of the path.
pub proof fn law_parent_holds_file_name(p: Seq<u8>)
    requires
        file_name_spec(p) is Some,
    ensures
        parent_spec(p) is Some,
        components(join_spec(parent_spec(p)->0, file_name_spec(p)->0)) == components(p),
{
    let name = file_name_spec(p)->0;
    law_parent_drops_last_component(p);
    lemma_file_name_is_plain(p);
    lemma_child_path(parent_spec(p)->0, name);
    assert(components(p).drop_last().push(Component::Normal(name)) =~= components(p));
}

/// What is left of a path behind one or more of its components has the
/// components that were left.
pub proof fn lemma_tail_components(p: Seq<u8>, n: int)
    requires
        1 <= n <= components(p).len(),
    ensures
        body_components(tail_from(p, n)) == components(p).skip(n),
        !has_head(tail_from(p, n)),
        components(tail_from(p, n)) == components(p).skip(n),
{
    let rest = tail_from(p, n);
    let h: int = if has_head(p) {
        1
    } else {
        0
    };
    let all = body_spans(p, h);
    let k = n - h;
    if n == components(p).len() {
        assert(body_components(rest) =~= components(p).skip(n));
    } else {
        assert(spans_spec(p)[n] == all[k]);
        assert(spans_spec(p).last() == all.last());
        let a = all[k].0;
        lemma_tail_spans(p, h, k);
        assert(rest == p.subrange(a, all.last().1));
        let mine = body_spans(rest, 0);
        assert(mine.len() == all.len() - k) by {
            assert(shift(mine, a).len() == all.skip(k).len());
        }
        lemma_body_spans(rest, 0);
        assert forall|l: int| 0 <= l < mine.len() implies body_components(rest)[l]
            == components(p).skip(n)[l] by {
            let s = mine[l];
            assert(span_ok(rest, 0, s));
            assert(shift(mine, a)[l] == all.skip(k)[l]);
            assert(all[k + l] == (s.0 + a, s.1 + a));
            assert(spans_spec(p)[n + l] == all[k + l]);
            assert(rest.subrange(s.0, s.1) =~= p.subrange(s.0 + a, s.1 + a));
        }
        assert(body_components(rest) =~= components(p).skip(n));
        assert(shift(mine, a)[0] == all.skip(k)[0]);
        assert(mine[0].0 == 0);
        assert(span_ok(rest, 0, mine[0]));
        assert(!has_head(rest)) by {
            assert(rest[0] != SLASH);
            if starts_with_dot_segment(rest) {
                assert(mine[0].1 == 1);
                assert(rest.subrange(0, 1) =~= seq![DOT]);
            }
        }
    }
}

/// A plain name is one component.
pub proof fn lemma_plain_name(n: Seq<u8>)
    requires
        is_plain_name(n),
    ensures
        !has_head(n),
        body_components(n) == seq![Component::Normal(n)],
        components(n) == seq![Component::Normal(n)],
{
    lemma_segment_end(n, 0);
    let j = segment_end(n, 0);
    if j < n.len() {
        assert(n.contains(n[j]));
    }
    assert(n.contains(n[0]));
    assert(n.subrange(0, j) =~= n);
    assert(body_spans(n, j + 1) =~= Seq::empty());
    assert(body_spans(n, 0) =~= seq![(0int, j)]);
    if n =~= seq![SLASH] {
        assert(n[0] == SLASH);
    }
    if n.len() > 1 {
        assert(n.contains(n[1]));
    }
    if starts_with_dot_segment(n) {
        assert(n =~= seq![DOT]);
    }
    assert(body_components(n) =~= seq![Component::Normal(n)]);
    assert(components(n) =~= seq![Component::Normal(n)]);
}

/// A plain name in a directory is one component more, and the file name.
pub proof fn lemma_child_path(dir: Seq<u8>, n: Seq<u8>)
    requires
        is_plain_name(n),
    ensures
        components(join_spec(dir, n)) == components(dir).push(Component::Normal(n)),
        file_name_spec(join_spec(dir, n)) == Some(n),
{
    lemma_plain_name(n);
    if dir.len() > 0 {
        lemma_join_components(dir, n);
    } else {
        assert(join_spec(dir, n) =~= n);
        lemma_spans(dir);
    }
    assert(components(join_spec(dir, n)) =~= components(dir).push(Component::Normal(n)));
}

/// The name `..` is one component.
pub proof fn lemma_dotdot()
    ensures
        body_components(seq![DOT, DOT]) == seq![Component::ParentDir],
{
    let n = seq![DOT, DOT];
    lemma_segment_end(n, 0);
    assert(segment_end(n, 0) == 2);
    assert(n.subrange(0, 2) =~= n);
    assert(body_spans(n, 3) =~= Seq::empty());
    assert(body_spans(n, 0) =~= seq![(0int, 2int)]);
    assert(body_components(n) =~= seq![Component::ParentDir]);
}

/// A file name is a plain name.
pub proof fn lemma_file_name_is_plain(p: Seq<u8>)
    ensures
        file_name_spec(p) matches Some(name) ==> is_plain_name(name),
{
    if file_name_spec(p) is Some {
        let k = spans_spec(p).len() - 1;
        let h: int = if has_head(p) {
            1
        } else {
            0
        };
        let s = spans_spec(p)[k];
        let name = file_name_spec(p)->0;
        assert(name == p.subrange(s.0, s.1));
        if has_head(p) && k == 0 {
            assert(name =~= seq![p[0]]);
            assert(false);
        }
        lemma_body_spans(p, h);
        assert(span_ok(p, h, body_spans(p, h)[k - h]));
        if name.contains(SLASH) {
            let i = choose|i: int| 0 <= i < name.len() && name[i] == SLASH;
            assert(p[s.0 + i] == SLASH);
        }
    }
}

/// Nothing counts behind the last component.
proof fn lemma_trimmed(p: Seq<u8>)
    ensures
        components(tail_from(p, 0)) == components(p),
{
    let s = spans_spec(p);
    let n = s.len() as int;
    let q = tail_from(p, 0);
    lemma_spans(p);
    if n == 0 {
        lemma_spans(q);
        assert(components(q) =~= components(p));
    } else {
        let h: int = if has_head(p) {
            1
        } else {
            0
        };
        let all = body_spans(p, h);
        let e = s[n - 1].1;
        assert(q =~= p.subrange(0, e));
        assert(spans_spec(q) =~= s) by {
            if n - 1 < h {
                assert(e == 1);
                assert(q.len() == 1 && q[0] == p[0]);
                assert(has_head(q));
                assert(body_spans(q, 1) =~= Seq::empty());
                assert(all =~= Seq::empty());
            } else {
                let k = n - 1 - h;
                assert(s[n - 1] == all[k]);
                lemma_cut_at(p, h, k);
                assert(all.take(k + 1) =~= all);
                lemma_body_spans(p, h);
                assert(span_ok(p, h, all[k]));
                assert(q[0] == p[0]);
                if has_head(p) {
                    assert(e > 1);
                    assert(q[1] == p[1]);
                } else if e == 1 {
                    assert(p.subrange(all[k].0, all[k].1) =~= seq![p[0]]);
                } else {
                    assert(q[1] == p[1]);
                }
                assert(has_head(q) == has_head(p));
            }
        }
        assert forall|k: int| 0 <= k < n implies components(q)[k] == components(p)[k] by {
            assert(spans_spec(q)[k] == s[k]);
            assert(s[k].1 <= e) by {
                if k < n - 1 {
                    assert(s[k].1 <= s[n - 1].0);
                }
            }
            assert(q.subrange(s[k].0, s[k].1) =~= p.subrange(s[k].0, s[k].1));
        }
        assert(components(q) =~= components(p));
    }
}

/// Joining what was stripped: `base` joined with what `p` has below `base`
/// names the same place as `p`.
pub proof fn law_join_undoes_strip_prefix(p: Seq<u8>, base: Seq<u8>)
    requires
        starts_with_spec(p, base),
    ensures
        components(join_spec(base, strip_prefix_spec(p, base)->0)) == components(p),
{
    lemma_spans(base);
    if base.len() == 0 {
        lemma_trimmed(p);
        let rest = tail_from(p, 0);
        assert(join_spec(base, rest) =~= rest);
    } else {
        let n = components(base).len() as int;
        assert(n == spans_spec(base).len());
        lemma_tail_components(p, n);
        let rest = tail_from(p, n);
        lemma_join_components(base, rest);
        assert(components(base) == components(p).subrange(0, n));
        assert(components(base) + components(p).skip(n) =~= components(p));
    }
}

/// Stripping what was joined: a relative path joined to `base` is found again
/// below `base`.
pub proof fn law_strip_prefix_undoes_join(base: Seq<u8>, rel: Seq<u8>)
    requires
        base.len() > 0,
        !is_absolute_spec(rel),
    ensures
        starts_with_spec(join_spec(base, rel), base),
        components(strip_prefix_spec(join_spec(base, rel), base)->0) == body_components(rel),
{
    lemma_spans(base);
    let n = components(base).len() as int;
    assert(n == spans_spec(base).len());
    lemma_join_components(base, rel);
    let p = join_spec(base, rel);
    assert(components(p).subrange(0, n) =~= components(base));
    lemma_tail_components(p, n);
    assert(components(p).skip(n) =~= body_components(rel));
}

} // verus!
