//! Paths, told by the names between their slashes.
use crate::path::{
    body_components, body_spans, components, is_absolute_spec, is_plain_name, join_spec,
    law_join_undoes_strip_prefix, law_parent_drops_last_component, lemma_components_slash,
    lemma_components_slash_root, lemma_dotdot, lemma_plain_name, lemma_segment_end, lemma_spans,
    lemma_tail_components, parent_spec, segment_end, spans_spec, starts_with_spec,
    strip_prefix_spec, tail_from, Component,
};
use vstd::prelude::*;

verus! {

/// Whether a text between two slashes is a name: it is not empty, `.` or `..`.
pub open spec fn is_name(s: Seq<u8>) -> bool {
    !s.contains(47u8) && s.len() > 0 && s != seq![46u8] && s != seq![46u8, 46u8]
}

proof fn lemma_segments(n: Seq<u8>)
    ensures
        is_name(n) <==> is_plain_name(n),
        body_components(Seq::empty()) == Seq::<Component>::empty(),
        body_components(seq![46u8]) == Seq::<Component>::empty(),
        body_components(seq![46u8, 46u8]) == seq![Component::ParentDir],
        is_name(n) ==> body_components(n) == seq![Component::Normal(n)],
{
    assert(body_components(Seq::empty()) =~= Seq::<Component>::empty());
    let dot = seq![46u8];
    lemma_segment_end(dot, 0);
    assert(segment_end(dot, 1) == 1);
    assert(segment_end(dot, 0) == 1);
    assert(dot.subrange(0, 1) =~= dot);
    assert(body_spans(dot, 2) =~= Seq::empty());
    assert(body_spans(dot, 0) =~= Seq::empty());
    assert(body_components(dot) =~= Seq::<Component>::empty());
    lemma_dotdot();
    if is_plain_name(n) {
        lemma_plain_name(n);
        assert(n.len() > 0);
    }
    if is_name(n) {
        assert(is_plain_name(n));
    }
}

/// Behind a slash a name is one more component and `..` is a step up; another slash
/// and `.` say nothing.
pub proof fn law_components_are_parted_by_slashes(d: Seq<u8>, n: Seq<u8>)
    requires
        d.len() > 0,
    ensures
        components(d.push(47)) == components(d),
        components(d.push(47) + seq![46u8]) == components(d),
        components(d.push(47) + seq![46u8, 46u8]) == components(d).push(Component::ParentDir),
        is_name(n) ==> components(d.push(47) + n) == components(d).push(Component::Normal(n)),
{
    lemma_segments(n);
    let none = Seq::<u8>::empty();
    lemma_components_slash(d, none);
    assert(d.push(47) + none =~= d.push(47));
    assert(components(d) + Seq::<Component>::empty() =~= components(d));
    lemma_components_slash(d, seq![46u8]);
    lemma_components_slash(d, seq![46u8, 46u8]);
    assert(components(d) + seq![Component::ParentDir] =~= components(d).push(Component::ParentDir));
    if is_name(n) {
        lemma_components_slash(d, n);
        assert(components(d) + seq![Component::Normal(n)] =~= components(d).push(
            Component::Normal(n),
        ));
    }
}

/// A path starts with the root where a slash comes first; a name, `.` and `..` are one
/// component each where they come first, and an empty path has none.
pub proof fn law_how_paths_start(n: Seq<u8>)
    ensures
        components(Seq::empty()) == Seq::<Component>::empty(),
        components(seq![47u8]) == seq![Component::RootDir],
        components(seq![46u8]) == seq![Component::CurDir],
        components(seq![46u8, 46u8]) == seq![Component::ParentDir],
        components(seq![47u8, 46u8]) == seq![Component::RootDir],
        components(seq![47u8, 46u8, 46u8]) == seq![Component::RootDir, Component::ParentDir],
        is_name(n) ==> components(n) == seq![Component::Normal(n)],
        is_name(n) ==> components(seq![47u8] + n) == seq![
            Component::RootDir,
            Component::Normal(n),
        ],
{
    lemma_segments(n);
    let none = Seq::<u8>::empty();
    lemma_spans(none);
    assert(components(none) =~= Seq::<Component>::empty());
    lemma_components_slash_root(none);
    assert(seq![47u8] + none =~= seq![47u8]);
    assert(seq![Component::RootDir] + Seq::<Component>::empty() =~= seq![Component::RootDir]);
    let dot = seq![46u8];
    assert(body_spans(dot, 1) =~= Seq::empty());
    assert(spans_spec(dot) =~= seq![(0int, 1int)]);
    assert(dot.subrange(0, 1) =~= dot);
    assert(components(dot) =~= seq![Component::CurDir]);
    let up = seq![46u8, 46u8];
    assert(spans_spec(up) == body_spans(up, 0));
    assert(components(up) =~= body_components(up));
    lemma_components_slash_root(dot);
    assert(seq![47u8] + dot =~= seq![47u8, 46u8]);
    lemma_components_slash_root(up);
    assert(seq![47u8] + up =~= seq![47u8, 46u8, 46u8]);
    assert(seq![Component::RootDir] + seq![Component::ParentDir] =~= seq![
        Component::RootDir,
        Component::ParentDir,
    ]);
    if is_name(n) {
        lemma_plain_name(n);
        lemma_components_slash_root(n);
        assert(seq![Component::RootDir] + seq![Component::Normal(n)] =~= seq![
            Component::RootDir,
            Component::Normal(n),
        ]);
    }
}

/// A path starts with another one where the components of the other come first in it;
/// what is left then is relative, and has the components that are left.
pub proof fn law_what_is_left_behind_a_prefix(p: Seq<u8>, base: Seq<u8>)
    ensures
        starts_with_spec(p, base) <==> components(base).len() <= components(p).len() && components(
            p,
        ).take(components(base).len() as int) == components(base),
        strip_prefix_spec(p, base) is Some <==> starts_with_spec(p, base),
        starts_with_spec(p, base) && base.len() > 0 ==> {
            let rest = strip_prefix_spec(p, base)->0;
            &&& !is_absolute_spec(rest)
            &&& components(rest) == components(p).skip(components(base).len() as int)
            &&& exists|a: int, b: int|
                0 <= a <= b <= p.len() && rest == #[trigger] p.subrange(a, b)
        },
        starts_with_spec(p, base) ==> components(join_spec(base, strip_prefix_spec(p, base)->0))
            == components(p),
{
    assert(components(p).take(components(base).len() as int) == components(p).subrange(
        0,
        components(base).len() as int,
    ));
    if starts_with_spec(p, base) {
        law_join_undoes_strip_prefix(p, base);
        if base.len() > 0 {
            lemma_spans(base);
            lemma_spans(p);
            let n = components(base).len() as int;
            lemma_tail_components(p, n);
            let rest = tail_from(p, n);
            if n >= spans_spec(p).len() {
                assert(rest =~= p.subrange(0, 0));
            } else {
                let a = spans_spec(p)[n].0;
                let b = spans_spec(p).last().1;
                assert(a <= b) by {
                    if n < spans_spec(p).len() - 1 {
                        assert(spans_spec(p)[n].1 <= spans_spec(p)[spans_spec(p).len() - 1].0);
                    }
                }
                assert(rest == p.subrange(a, b));
            }
        }
    }
}

/// Joining keeps both paths, the second behind the first, with one slash between them
/// unless the first ends with one; an absolute path takes the place of the first.
pub proof fn law_joining_keeps_both(a: Seq<u8>, b: Seq<u8>)
    ensures
        b.len() > 0 && b[0] == 47 ==> join_spec(a, b) == b,
        !(b.len() > 0 && b[0] == 47) ==> {
            let j = join_spec(a, b);
            let between: int = if a.len() > 0 && a.last() != 47 {
                1
            } else {
                0
            };
            &&& j.len() == a.len() + between + b.len()
            &&& j.take(a.len() as int) == a
            &&& j.skip(a.len() + between) == b
            &&& between == 1 ==> j[a.len() as int] == 47
        },
{
    let j = join_spec(a, b);
    if !(b.len() > 0 && b[0] == 47) {
        assert(j.take(a.len() as int) =~= a);
        if a.len() > 0 && a.last() != 47 {
            assert(j.skip(a.len() as int + 1) =~= b);
        } else {
            assert(j.skip(a.len() as int) =~= b);
        }
    }
}

/// A path has a parent unless it is empty or ends at the root; the parent is the
/// front of the path, up to the end of the last component but one.
pub proof fn law_parents_are_the_front_of_a_path(p: Seq<u8>)
    ensures
        parent_spec(p) is None <==> p.len() == 0 || components(p).last() == Component::RootDir,
        parent_spec(p) matches Some(q) ==> {
            &&& q.len() < p.len()
            &&& p.take(q.len() as int) == q
            &&& components(q) == components(p).drop_last()
        },
{
    lemma_spans(p);
    if parent_spec(p) is Some {
        law_parent_drops_last_component(p);
        let q = parent_spec(p)->0;
        assert(p.take(q.len() as int) =~= q);
        let s = spans_spec(p);
        if s.len() > 1 {
            assert(s[s.len() - 2].1 <= s[s.len() - 1].0);
        }
    }
}

} // verus!
