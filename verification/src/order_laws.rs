//! What the comparisons of `order` and the cuts of `path` come to, told byte by
//! byte and component by component.
use crate::order::{
    bytes_order, component_order, components_order, lemma_bytes_order_flip, lemma_component_order,
    lemma_components_order_flip, option_order, path_order, Order,
};
use crate::path::{
    components, extension_spec, file_name_spec, file_stem_spec, last_dot, Component,
};
use crate::rank::{is_total, ranked};
use crate::text::{decimal, digits_value, parse_u64_spec};
use vstd::prelude::*;

verus! {

/// Two byte strings are compared at the first place where they differ: the one
/// that has ended there, or has the smaller byte there, comes first. They compare
/// as equal only where they are.
pub proof fn law_bytes_are_compared_at_first_difference(a: Seq<u8>, b: Seq<u8>, k: int)
    requires
        0 <= k <= a.len(),
        k <= b.len(),
        a.take(k) == b.take(k),
    ensures
        k < b.len() && (k == a.len() || a[k] < b[k]) ==> bytes_order(a, b) == Order::Less,
        k < a.len() && (k == b.len() || b[k] < a[k]) ==> bytes_order(a, b) == Order::Greater,
        bytes_order(a, b) == Order::Equal <==> a == b,
    decreases k,
{
    lemma_bytes_order_flip(a, b);
    if k > 0 {
        let x = a.drop_first();
        let y = b.drop_first();
        assert(a.take(k)[0] == b.take(k)[0]);
        assert(x.take(k - 1) =~= a.take(k).drop_first());
        assert(y.take(k - 1) =~= b.take(k).drop_first());
        assert(a.take(k)[0] == a[0] && b.take(k)[0] == b[0]);
        assert(k < a.len() ==> x[k - 1] == a[k]);
        assert(k < b.len() ==> y[k - 1] == b[k]);
        law_bytes_are_compared_at_first_difference(x, y, k - 1);
    }
}

/// A path component that is the root comes before all others, then `.`, then
/// `..`, then names, and names come in the order of their bytes.
pub proof fn law_components_come_in_order(a: Component, b: Component)
    ensures
        a is RootDir && !(b is RootDir) ==> component_order(a, b) == Order::Less,
        a is CurDir && (b is ParentDir || b is Normal) ==> component_order(a, b) == Order::Less,
        a is ParentDir && b is Normal ==> component_order(a, b) == Order::Less,
        a is Normal && b is Normal ==> component_order(a, b) == bytes_order(
            a->Normal_0,
            b->Normal_0,
        ),
        component_order(a, b) == Order::Equal <==> a == b,
        component_order(a, b) == Order::Greater <==> component_order(b, a) == Order::Less,
{
    lemma_component_order(a, b);
    lemma_component_order(b, a);
}

/// Two paths are compared at the first component in which they differ: the one
/// that has ended there, or has the smaller component there, comes first.
pub proof fn law_paths_are_compared_at_first_difference(p: Seq<u8>, q: Seq<u8>, k: int)
    requires
        0 <= k <= components(p).len(),
        k <= components(q).len(),
        components(p).take(k) == components(q).take(k),
    ensures
        k < components(q).len() && (k == components(p).len() || component_order(
            components(p)[k],
            components(q)[k],
        ) == Order::Less) ==> path_order(p, q) == Order::Less,
        k < components(p).len() && (k == components(q).len() || component_order(
            components(q)[k],
            components(p)[k],
        ) == Order::Less) ==> path_order(p, q) == Order::Greater,
        path_order(p, q) == Order::Equal <==> components(p) == components(q),
{
    lemma_components_order_flip(components(p), components(q));
    lemma_first_difference(components(p), components(q), k);
}

proof fn lemma_first_difference(a: Seq<Component>, b: Seq<Component>, k: int)
    requires
        0 <= k <= a.len(),
        k <= b.len(),
        a.take(k) == b.take(k),
    ensures
        k < b.len() && (k == a.len() || component_order(a[k], b[k]) == Order::Less)
            ==> components_order(a, b) == Order::Less,
        k < a.len() && (k == b.len() || component_order(b[k], a[k]) == Order::Less)
            ==> components_order(a, b) == Order::Greater,
    decreases k,
{
    if k > 0 {
        let x = a.drop_first();
        let y = b.drop_first();
        assert(a.take(k)[0] == b.take(k)[0]);
        lemma_component_order(a[0], b[0]);
        assert(x.take(k - 1) =~= a.take(k).drop_first());
        assert(y.take(k - 1) =~= b.take(k).drop_first());
        assert(a.take(k)[0] == a[0] && b.take(k)[0] == b[0]);
        assert(k < a.len() ==> x[k - 1] == a[k]);
        assert(k < b.len() ==> y[k - 1] == b[k]);
        lemma_first_difference(x, y, k - 1);
    } else if a.len() > 0 && b.len() > 0 {
        lemma_component_order(a[0], b[0]);
    }
}

/// What is missing comes before what is there, and of two that are there the
/// bytes decide.
pub proof fn law_missing_comes_first(a: Option<Seq<u8>>, b: Option<Seq<u8>>)
    ensures
        a is None && b is Some ==> option_order(a, b) == Order::Less,
        a is Some && b is None ==> option_order(a, b) == Order::Greater,
        a is None && b is None ==> option_order(a, b) == Order::Equal,
        a is Some && b is Some ==> option_order(a, b) == bytes_order(a->0, b->0),
{
}

proof fn lemma_last_dot(s: Seq<u8>)
    ensures
        -1 <= last_dot(s) < s.len(),
        last_dot(s) >= 0 ==> s[last_dot(s)] == 46,
        forall|k: int| last_dot(s) < k < s.len() ==> s[k] != 46,
    decreases s.len(),
{
    if s.len() > 0 && s.last() != 46 {
        let front = s.drop_last();
        lemma_last_dot(front);
        assert forall|k: int| last_dot(s) < k < s.len() implies s[k] != 46 by {
            if k < front.len() {
                assert(front[k] == s[k]);
            }
        }
    }
}

/// A file name is its stem, a `.` and its extension, the `.` being the last in
/// the name and not the first byte; a name without such a `.` is all stem.
pub proof fn law_name_is_stem_and_extension(path: Seq<u8>, name: Seq<u8>)
    requires
        file_name_spec(path) == Some(name),
    ensures
        file_stem_spec(path) is Some,
        match extension_spec(path) {
            Some(ext) => {
                &&& name == file_stem_spec(path)->0.push(46) + ext
                &&& file_stem_spec(path)->0.len() > 0
                &&& !ext.contains(46)
            },
            None => {
                &&& file_stem_spec(path)->0 == name
                &&& forall|k: int| 0 < k < name.len() ==> name[k] != 46
            },
        },
{
    lemma_last_dot(name);
    let d = last_dot(name);
    if d > 0 {
        assert(name =~= name.take(d).push(46) + name.skip(d + 1));
    }
}

/// A path that ends in no name has neither stem nor extension.
pub proof fn law_no_name_no_extension(path: Seq<u8>)
    requires
        file_name_spec(path) is None,
    ensures
        file_stem_spec(path) is None,
        extension_spec(path) is None,
{
}

/// The name of a path is its last component, where that is a name.
pub proof fn law_file_name_is_last_component(path: Seq<u8>, name: Seq<u8>)
    ensures
        file_name_spec(path) == Some(name) <==> components(path).len() > 0 && components(
            path,
        ).last() == Component::Normal(name),
{
}

/// Comparing by a number that each name has makes outcomes that go together, so
/// that ranks follow them.
pub proof fn law_numbers_make_a_total_order(key: spec_fn(int) -> int, n: int)
    ensures
        is_total(|i: int, j: int| crate::order::int_order(key(i), key(j)), n),
{
}

/// Comparing byte strings makes outcomes that go together, so that ranks follow
/// them.
pub proof fn law_bytes_make_a_total_order(name: spec_fn(int) -> Seq<u8>, n: int)
    ensures
        is_total(|i: int, j: int| bytes_order(name(i), name(j)), n),
{
    let order = |i: int, j: int| bytes_order(name(i), name(j));
    assert forall|i: int, j: int| 0 <= i < n && 0 <= j < n implies #[trigger] order(i, j)
        == crate::order::flipped(order(j, i)) by {
        lemma_bytes_order_flip(name(i), name(j));
    }
    assert forall|i: int, j: int, k: int| 0 <= i < n && 0 <= j < n && 0 <= k < n implies
        crate::order::chains(#[trigger] order(i, j), #[trigger] order(j, k), order(i, k)) by {
        crate::order::lemma_bytes_order_chains(name(i), name(j), name(k));
    }
}

/// Of two ranks the smaller belongs to the name that comes first, and equal ranks
/// to names that do not differ.
pub proof fn law_ranks_stand_for_names(
    ranks: Seq<u64>,
    order: spec_fn(int, int) -> Order,
    i: int,
    j: int,
)
    requires
        ranked(ranks, order),
        0 <= i < ranks.len(),
        0 <= j < ranks.len(),
    ensures
        ranks[i] < ranks[j] <==> order(i, j) == Order::Less,
        ranks[i] == ranks[j] <==> order(i, j) == Order::Equal,
{
    assert(crate::order::int_order(ranks[i] as int, ranks[j] as int) == order(i, j));
}

// ---------------------------------------------------------------------------
// Numbers as text
// ---------------------------------------------------------------------------

/// A text of digits spells ten times what it spells without its last digit, and
/// that digit; a `+` in front changes nothing.
pub proof fn law_numbers_grow_by_digits(s: Seq<char>, c: char)
    requires
        '0' <= c <= '9',
        parse_u64_spec(s) is Some,
    ensures
        ({
            let n = parse_u64_spec(s)->0 * 10 + (c as int - '0' as int);
            parse_u64_spec(s.push(c)) == if n <= u64::MAX {
                Some(n as u64)
            } else {
                None::<u64>
            }
        }),
{
    let d = crate::text::unsigned_digits(s);
    let e = crate::text::unsigned_digits(s.push(c));
    if s[0] == '+' {
        assert(e =~= d.push(c));
    } else {
        assert(e =~= d.push(c));
    }
    assert(e.drop_last() =~= d);
    assert forall|k: int| 0 <= k < e.len() implies crate::text::is_digit(#[trigger] e[k]) by {
        if k < d.len() {
            assert(crate::text::is_digit(d[k]));
        }
    }
}

/// One digit spells its value, with or without a `+` in front; nothing and a lone
/// `+` spell no number, and neither does a text with anything but digits behind
/// the `+`.
pub proof fn law_what_spells_a_number(c: char, s: Seq<char>, k: int)
    ensures
        '0' <= c <= '9' ==> parse_u64_spec(seq![c]) == Some((c as int - '0' as int) as u64)
            && parse_u64_spec(seq!['+', c]) == Some((c as int - '0' as int) as u64),
        parse_u64_spec(Seq::empty()) is None,
        parse_u64_spec(seq!['+']) is None,
        0 <= k < s.len() && !(48 <= s[k] as u32 <= 57) && !(k == 0 && s[k] == '+') ==> parse_u64_spec(s)
            is None,
{
    let one = seq![c];
    assert(one.drop_last() =~= Seq::<char>::empty());
    assert(digits_value(one.drop_last()) == 0);
    let plus = seq!['+', c];
    assert(crate::text::unsigned_digits(plus) =~= one);
    assert(crate::text::unsigned_digits(seq!['+']) =~= Seq::<char>::empty());
    if 0 <= k < s.len() && !(48 <= s[k] as u32 <= 57) && !(k == 0 && s[k] == '+') {
        let d = crate::text::unsigned_digits(s);
        if s[0] == '+' {
            assert(d[k - 1] == s[k]);
            assert(!crate::text::is_digit(d[k - 1]));
        } else {
            assert(d[k] == s[k]);
            assert(!crate::text::is_digit(d[k]));
        }
    }
}

/// A number is written as what it is without its last digit, and that digit.
pub proof fn law_numbers_are_written_in_decimal(n: nat)
    ensures
        n < 10 ==> decimal(n) == seq![(48 + n) as u8],
        n >= 10 ==> decimal(n) == decimal(n / 10).push((48 + n % 10) as u8),
{
}

} // verus!
