//! Three-way comparison of byte strings and paths, and the laws that make a
//! sort by it well defined.
use crate::path::{components, spans, Component};
use vstd::prelude::*;
use vstd::slice::slice_subrange;

verus! {

/// The outcome of a comparison.
#[derive(Clone, Copy, Debug, PartialEq, Eq, Structural)]
pub enum Order {
    Less,
    Equal,
    Greater,
}

pub open spec fn flipped(o: Order) -> Order {
    match o {
        Order::Less => Order::Greater,
        Order::Equal => Order::Equal,
        Order::Greater => Order::Less,
    }
}

/// The first comparison, or the second where the first found no difference.
pub open spec fn or_else(first: Order, second: Order) -> Order {
    if first == Order::Equal {
        second
    } else {
        first
    }
}

/// What a comparison of `a` with `c` has to give, from those of `a` with `b`
/// and of `b` with `c`.
pub open spec fn chains(ab: Order, bc: Order, ac: Order) -> bool {
    &&& ab == Order::Equal && bc == Order::Equal ==> ac == Order::Equal
    &&& ab != Order::Greater && bc != Order::Greater && (ab == Order::Less || bc == Order::Less)
        ==> ac == Order::Less
}

pub open spec fn int_order(a: int, b: int) -> Order {
    if a < b {
        Order::Less
    } else if a == b {
        Order::Equal
    } else {
        Order::Greater
    }
}

/// Byte by byte; a proper prefix comes first.
pub open spec fn bytes_order(a: Seq<u8>, b: Seq<u8>) -> Order
    decreases a.len(),
{
    if a.len() == 0 {
        int_order(0, b.len() as int)
    } else if b.len() == 0 {
        Order::Greater
    } else {
        or_else(
            int_order(a[0] as int, b[0] as int),
            bytes_order(a.drop_first(), b.drop_first()),
        )
    }
}

/// Nothing comes before something.
pub open spec fn option_order(a: Option<Seq<u8>>, b: Option<Seq<u8>>) -> Order {
    match (a, b) {
        (None, None) => Order::Equal,
        (None, Some(_)) => Order::Less,
        (Some(_), None) => Order::Greater,
        (Some(x), Some(y)) => bytes_order(x, y),
    }
}

pub open spec fn component_rank(c: Component) -> int {
    match c {
        Component::RootDir => 0,
        Component::CurDir => 1,
        Component::ParentDir => 2,
        Component::Normal(_) => 3,
    }
}

pub open spec fn component_name(c: Component) -> Seq<u8> {
    match c {
        Component::Normal(n) => n,
        _ => Seq::empty(),
    }
}

pub open spec fn component_order(a: Component, b: Component) -> Order {
    or_else(
        int_order(component_rank(a), component_rank(b)),
        bytes_order(component_name(a), component_name(b)),
    )
}

pub open spec fn components_order(a: Seq<Component>, b: Seq<Component>) -> Order
    decreases a.len(),
{
    if a.len() == 0 {
        int_order(0, b.len() as int)
    } else if b.len() == 0 {
        Order::Greater
    } else {
        or_else(
            component_order(a[0], b[0]),
            components_order(a.drop_first(), b.drop_first()),
        )
    }
}

/// Paths are compared component by component.
pub open spec fn path_order(a: Seq<u8>, b: Seq<u8>) -> Order {
    components_order(components(a), components(b))
}

// ---------------------------------------------------------------------------
// Each of these is a total order
// ---------------------------------------------------------------------------

pub proof fn lemma_bytes_order_flip(a: Seq<u8>, b: Seq<u8>)
    ensures
        bytes_order(a, b) == flipped(bytes_order(b, a)),
        bytes_order(a, b) == Order::Equal <==> a == b,
    decreases a.len(),
{
    if a.len() > 0 && b.len() > 0 {
        lemma_bytes_order_flip(a.drop_first(), b.drop_first());
        if a[0] == b[0] && a.drop_first() == b.drop_first() {
            assert(a =~= seq![a[0]] + a.drop_first());
            assert(b =~= seq![b[0]] + b.drop_first());
        }
    } else if a.len() == 0 && b.len() == 0 {
        assert(a =~= b);
    }
}

pub proof fn lemma_bytes_order_chains(a: Seq<u8>, b: Seq<u8>, c: Seq<u8>)
    ensures
        chains(bytes_order(a, b), bytes_order(b, c), bytes_order(a, c)),
    decreases a.len(),
{
    if a.len() > 0 && b.len() > 0 && c.len() > 0 {
        lemma_bytes_order_chains(a.drop_first(), b.drop_first(), c.drop_first());
    }
}

pub proof fn lemma_component_order(a: Component, b: Component)
    ensures
        component_order(a, b) == flipped(component_order(b, a)),
        component_order(a, b) == Order::Equal <==> a == b,
{
    lemma_bytes_order_flip(component_name(a), component_name(b));
}

pub proof fn lemma_components_order_flip(a: Seq<Component>, b: Seq<Component>)
    ensures
        components_order(a, b) == flipped(components_order(b, a)),
        components_order(a, b) == Order::Equal <==> a == b,
    decreases a.len(),
{
    if a.len() > 0 && b.len() > 0 {
        lemma_component_order(a[0], b[0]);
        lemma_components_order_flip(a.drop_first(), b.drop_first());
        if a[0] == b[0] && a.drop_first() == b.drop_first() {
            assert(a =~= seq![a[0]] + a.drop_first());
            assert(b =~= seq![b[0]] + b.drop_first());
        }
    } else if a.len() == 0 && b.len() == 0 {
        assert(a =~= b);
    }
}

pub proof fn lemma_components_order_chains(a: Seq<Component>, b: Seq<Component>, c: Seq<Component>)
    ensures
        chains(components_order(a, b), components_order(b, c), components_order(a, c)),
    decreases a.len(),
{
    if a.len() > 0 && b.len() > 0 && c.len() > 0 {
        lemma_bytes_order_chains(
            component_name(a[0]),
            component_name(b[0]),
            component_name(c[0]),
        );
        lemma_components_order_chains(a.drop_first(), b.drop_first(), c.drop_first());
    }
}

/// What two paths share in front does not tell them apart.
pub proof fn lemma_components_order_common(
    front: Seq<Component>,
    a: Seq<Component>,
    b: Seq<Component>,
)
    ensures
        components_order(front + a, front + b) == components_order(a, b),
    decreases front.len(),
{
    if front.len() == 0 {
        assert(front + a =~= a);
        assert(front + b =~= b);
    } else {
        lemma_component_order(front[0], front[0]);
        lemma_components_order_common(front.drop_first(), a, b);
        assert((front + a).drop_first() =~= front.drop_first() + a);
        assert((front + b).drop_first() =~= front.drop_first() + b);
    }
}

// ---------------------------------------------------------------------------
// Comparing
// ---------------------------------------------------------------------------

pub fn compare_u64(a: u64, b: u64) -> (r: Order)
    ensures
        r == int_order(a as int, b as int),
{
    if a < b {
        Order::Less
    } else if a == b {
        Order::Equal
    } else {
        Order::Greater
    }
}

pub fn compare_bytes(a: &[u8], b: &[u8]) -> (r: Order)
    ensures
        r == bytes_order(a@, b@),
{
    let n: usize = if a.len() < b.len() {
        a.len()
    } else {
        b.len()
    };
    let mut i: usize = 0;
    assert(a@.skip(0) =~= a@);
    assert(b@.skip(0) =~= b@);
    while i < n
        invariant
            i <= n <= a@.len(),
            n <= b@.len(),
            n == a@.len() || n == b@.len(),
            bytes_order(a@, b@) == bytes_order(a@.skip(i as int), b@.skip(i as int)),
        decreases n - i,
    {
        if a[i] < b[i] {
            return Order::Less;
        }
        if a[i] > b[i] {
            return Order::Greater;
        }
        assert(a@.skip(i as int).drop_first() =~= a@.skip(i + 1));
        assert(b@.skip(i as int).drop_first() =~= b@.skip(i + 1));
        i = i + 1;
    }
    if a.len() < b.len() {
        Order::Less
    } else if a.len() == b.len() {
        Order::Equal
    } else {
        Order::Greater
    }
}

pub fn compare_options(a: Option<&[u8]>, b: Option<&[u8]>) -> (r: Order)
    ensures
        r == option_order(
            match a {
                Some(x) => Some(x@),
                None => None,
            },
            match b {
                Some(x) => Some(x@),
                None => None,
            },
        ),
{
    match (a, b) {
        (None, None) => Order::Equal,
        (None, Some(_)) => Order::Less,
        (Some(_), None) => Order::Greater,
        (Some(x), Some(y)) => compare_bytes(x, y),
    }
}

/// The place of a segment among the kinds of components.
fn segment_rank(s: &[u8]) -> (r: u64)
    ensures
        r == component_rank(crate::path::component_of(s@)),
{
    if s.len() == 1 && s[0] == crate::path::SLASH {
        assert(s@ =~= seq![crate::path::SLASH]);
        return 0;
    }
    if s.len() == 1 && s[0] == crate::path::DOT {
        assert(s@ =~= seq![crate::path::DOT]);
        return 1;
    }
    if s.len() == 2 && s[0] == crate::path::DOT && s[1] == crate::path::DOT {
        assert(s@ =~= seq![crate::path::DOT, crate::path::DOT]);
        return 2;
    }
    3
}

fn compare_segments(a: &[u8], b: &[u8]) -> (r: Order)
    ensures
        r == component_order(crate::path::component_of(a@), crate::path::component_of(b@)),
{
    let ra: u64 = segment_rank(a);
    let rb: u64 = segment_rank(b);
    if ra == rb && ra == 3 {
        compare_bytes(a, b)
    } else {
        compare_u64(ra, rb)
    }
}

pub fn compare_paths(a: &[u8], b: &[u8]) -> (r: Order)
    ensures
        r == path_order(a@, b@),
{
    let sa = spans(a);
    let sb = spans(b);
    let ghost ca = components(a@);
    let ghost cb = components(b@);
    proof {
        crate::path::lemma_spans(a@);
        crate::path::lemma_spans(b@);
        assert(ca.len() == sa@.len());
        assert(cb.len() == sb@.len());
    }
    let n: usize = if sa.len() < sb.len() {
        sa.len()
    } else {
        sb.len()
    };
    let mut i: usize = 0;
    assert(ca.skip(0) =~= ca);
    assert(cb.skip(0) =~= cb);
    while i < n
        invariant
            i <= n <= sa@.len(),
            n <= sb@.len(),
            ca.len() == sa@.len(),
            cb.len() == sb@.len(),
            n == sa@.len() || n == sb@.len(),
            ca == components(a@),
            cb == components(b@),
            crate::path::spans_view(sa@) == crate::path::spans_spec(a@),
            crate::path::spans_view(sb@) == crate::path::spans_spec(b@),
            components_order(ca, cb) == components_order(ca.skip(i as int), cb.skip(i as int)),
        decreases n - i,
    {
        let (p, q) = sa[i];
        let (s, t) = sb[i];
        proof {
            crate::path::lemma_spans(a@);
            crate::path::lemma_spans(b@);
            assert(crate::path::spans_spec(a@)[i as int] == crate::path::spans_view(sa@)[i as int]);
            assert(crate::path::spans_spec(b@)[i as int] == crate::path::spans_view(sb@)[i as int]);
        }
        let o = compare_segments(slice_subrange(a, p, q), slice_subrange(b, s, t));
        assert(o == component_order(ca.skip(i as int)[0], cb.skip(i as int)[0]));
        match o {
            Order::Equal => {},
            _ => {
                return o;
            },
        }
        assert(ca.skip(i as int).drop_first() =~= ca.skip(i + 1));
        assert(cb.skip(i as int).drop_first() =~= cb.skip(i + 1));
        i = i + 1;
    }
    if sa.len() < sb.len() {
        Order::Less
    } else if sa.len() == sb.len() {
        Order::Equal
    } else {
        Order::Greater
    }
}

} // verus!
