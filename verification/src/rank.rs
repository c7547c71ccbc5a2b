//! Ranks of names by rules that are known only through the outcomes of
//! comparing two of them.
use crate::order::{chains, flipped, int_order, Order};
use vstd::prelude::*;

verus! {

/// Whether outcomes of comparisons among the first `n` names go together: what
/// one way round gives is the opposite of the other, and they chain.
pub open spec fn is_total(order: spec_fn(int, int) -> Order, n: int) -> bool {
    &&& forall|i: int, j: int|
        0 <= i < n && 0 <= j < n ==> #[trigger] order(i, j) == flipped(order(j, i))
    &&& forall|i: int, j: int, k: int|
        0 <= i < n && 0 <= j < n && 0 <= k < n ==> chains(
            #[trigger] order(i, j),
            #[trigger] order(j, k),
            order(i, k),
        )
}

/// Whether every comparison of two of the first `n` names gives what `order`
/// says, and these outcomes go together.
pub open spec fn tells<F: Fn(usize, usize) -> Order>(
    compare: F,
    order: spec_fn(int, int) -> Order,
    n: int,
) -> bool {
    &&& is_total(order, n)
    &&& forall|i: usize, j: usize, o: Order|
        i < n && j < n && #[trigger] compare.ensures((i, j), o) ==> o == order(i as int, j as int)
}

/// Whether ranks stand to each other as names do: one is below another exactly
/// where its name comes first, and they are equal exactly where the names do not
/// differ.
pub open spec fn ranked(ranks: Seq<u64>, order: spec_fn(int, int) -> Order) -> bool {
    forall|i: int, j: int|
        0 <= i < ranks.len() && 0 <= j < ranks.len() ==> int_order(
            #[trigger] ranks[i] as int,
            #[trigger] ranks[j] as int,
        ) == order(i, j)
}

/// Whether no name comes behind one that it is less than.
spec fn ascends(s: Seq<usize>, order: spec_fn(int, int) -> Order) -> bool {
    forall|a: int, b: int|
        0 <= a < b < s.len() ==> order(#[trigger] s[a] as int, #[trigger] s[b] as int)
            != Order::Greater
}

/// Whether no name of `s` comes behind one of `t`.
spec fn precedes(s: Seq<usize>, t: Seq<usize>, order: spec_fn(int, int) -> Order) -> bool {
    forall|a: int, b: int|
        0 <= a < s.len() && 0 <= b < t.len() ==> order(
            #[trigger] s[a] as int,
            #[trigger] t[b] as int,
        ) != Order::Greater
}

spec fn in_range(s: Seq<usize>, n: int) -> bool {
    forall|k: int| 0 <= k < s.len() ==> (#[trigger] s[k]) < n
}

/// One more name behind those that came before, the first of what was left.
proof fn lemma_taken(
    out: Seq<usize>,
    mine: Seq<usize>,
    other: Seq<usize>,
    order: spec_fn(int, int) -> Order,
    n: int,
)
    requires
        is_total(order, n),
        in_range(out, n),
        in_range(mine, n),
        in_range(other, n),
        mine.len() > 0,
        ascends(out, order),
        ascends(mine, order),
        ascends(other, order),
        precedes(out, mine, order),
        precedes(out, other, order),
        other.len() > 0 ==> order(mine[0] as int, other[0] as int) != Order::Greater,
    ensures
        ascends(out.push(mine[0]), order),
        precedes(out.push(mine[0]), mine.skip(1), order),
        precedes(out.push(mine[0]), other, order),
{
    let now = out.push(mine[0]);
    let rest = mine.skip(1);
    assert forall|a: int, b: int| 0 <= a < b < now.len() implies order(
        #[trigger] now[a] as int,
        #[trigger] now[b] as int,
    ) != Order::Greater by {
        assert(now[a] == out[a]);
        if b < out.len() {
            assert(now[b] == out[b]);
        }
    }
    assert forall|a: int, b: int| 0 <= a < now.len() && 0 <= b < rest.len() implies order(
        #[trigger] now[a] as int,
        #[trigger] rest[b] as int,
    ) != Order::Greater by {
        assert(rest[b] == mine[b + 1]);
        if a < out.len() {
            assert(now[a] == out[a]);
        }
    }
    assert forall|a: int, b: int| 0 <= a < now.len() && 0 <= b < other.len() implies order(
        #[trigger] now[a] as int,
        #[trigger] other[b] as int,
    ) != Order::Greater by {
        if a < out.len() {
            assert(now[a] == out[a]);
        } else if b > 0 {
            let (x, y, z) = (mine[0] as int, other[0] as int, other[b] as int);
            assert(order(y, z) != Order::Greater);
            assert(chains(order(x, y), order(y, z), order(x, z)));
        }
    }
}

/// Two runs of names put together to one.
fn merge<F: Fn(usize, usize) -> Order>(
    left: &Vec<usize>,
    right: &Vec<usize>,
    count: usize,
    compare: &F,
) -> (out: Vec<usize>)
    requires
        in_range(left@, count as int),
        in_range(right@, count as int),
        forall|i: usize, j: usize| i < count && j < count ==> #[trigger] compare.requires((i, j)),
    ensures
        out@.to_multiset() == left@.to_multiset().add(right@.to_multiset()),
        in_range(out@, count as int),
        forall|order: spec_fn(int, int) -> Order| #[trigger]
            tells(*compare, order, count as int) && ascends(left@, order) && ascends(right@, order)
                ==> ascends(out@, order),
{
    broadcast use vstd::seq_lib::group_to_multiset_ensures;

    let mut out: Vec<usize> = Vec::new();
    let mut i: usize = 0;
    let mut j: usize = 0;
    let ghost n = count as int;
    proof {
        assert(left@.skip(0) =~= left@);
        assert(right@.skip(0) =~= right@);
        assert(left@.take(0) =~= Seq::empty());
        assert(right@.take(0) =~= Seq::empty());
        assert(out@.to_multiset() =~= left@.take(0).to_multiset().add(
            right@.take(0).to_multiset(),
        ));
    }
    while i < left.len() || j < right.len()
        invariant
            i <= left@.len(),
            j <= right@.len(),
            n == count as int,
            in_range(left@, n),
            in_range(right@, n),
            in_range(out@, n),
            forall|i: usize, j: usize|
                i < count && j < count ==> #[trigger] compare.requires((i, j)),
            out@.to_multiset() == left@.take(i as int).to_multiset().add(
                right@.take(j as int).to_multiset(),
            ),
            forall|order: spec_fn(int, int) -> Order| #[trigger]
                tells(*compare, order, n) && ascends(left@, order) && ascends(right@, order) ==> {
                    &&& ascends(out@, order)
                    &&& precedes(out@, left@.skip(i as int), order)
                    &&& precedes(out@, right@.skip(j as int), order)
                },
        decreases left@.len() - i + right@.len() - j,
    {
        let ghost sofar = out@;
        let ghost l = left@.skip(i as int);
        let ghost r = right@.skip(j as int);
        let from_left = if i >= left.len() {
            false
        } else if j >= right.len() {
            true
        } else {
            let o = compare(left[i], right[j]);
            assert(l[0] == left@[i as int] && r[0] == right@[j as int]);
            assert(compare.ensures((left@[i as int], right@[j as int]), o));
            match o {
                Order::Greater => false,
                _ => true,
            }
        };
        assert forall|order: spec_fn(int, int) -> Order| #[trigger]
            tells(*compare, order, n) && ascends(left@, order) && ascends(right@, order) implies {
            &&& from_left && r.len() > 0 ==> order(l[0] as int, r[0] as int) != Order::Greater
            &&& !from_left && l.len() > 0 ==> order(r[0] as int, l[0] as int) != Order::Greater
            &&& ascends(l, order)
            &&& ascends(r, order)
        } by {
            if l.len() > 0 && r.len() > 0 {
                assert(order(r[0] as int, l[0] as int) == flipped(
                    order(l[0] as int, r[0] as int),
                ));
            }
            assert forall|a: int, b: int| 0 <= a < b < l.len() implies order(
                #[trigger] l[a] as int,
                #[trigger] l[b] as int,
            ) != Order::Greater by {
                assert(l[a] == left@[i + a] && l[b] == left@[i + b]);
            }
            assert forall|a: int, b: int| 0 <= a < b < r.len() implies order(
                #[trigger] r[a] as int,
                #[trigger] r[b] as int,
            ) != Order::Greater by {
                assert(r[a] == right@[j + a] && r[b] == right@[j + b]);
            }
        }
        if from_left {
            out.push(left[i]);
            proof {
                broadcast use vstd::seq_lib::group_to_multiset_ensures;

                assert(out@ == sofar.push(left@[i as int]));
                assert(left@.take(i + 1) =~= left@.take(i as int).push(left@[i as int]));
                assert(out@.to_multiset() =~= left@.take(i + 1).to_multiset().add(
                    right@.take(j as int).to_multiset(),
                ));
                assert(left@.skip(i + 1) =~= l.skip(1));
                assert forall|order: spec_fn(int, int) -> Order| #[trigger]
                    tells(*compare, order, n) && ascends(left@, order) && ascends(
                        right@,
                        order,
                    ) implies {
                    &&& ascends(out@, order)
                    &&& precedes(out@, left@.skip(i + 1), order)
                    &&& precedes(out@, right@.skip(j as int), order)
                } by {
                    lemma_taken(sofar, l, r, order, n);
                }
            }
            i = i + 1;
        } else {
            out.push(right[j]);
            proof {
                broadcast use vstd::seq_lib::group_to_multiset_ensures;

                assert(out@ == sofar.push(right@[j as int]));
                assert(right@.take(j + 1) =~= right@.take(j as int).push(right@[j as int]));
                assert(out@.to_multiset() =~= left@.take(i as int).to_multiset().add(
                    right@.take(j + 1).to_multiset(),
                ));
                assert(right@.skip(j + 1) =~= r.skip(1));
                assert forall|order: spec_fn(int, int) -> Order| #[trigger]
                    tells(*compare, order, n) && ascends(left@, order) && ascends(
                        right@,
                        order,
                    ) implies {
                    &&& ascends(out@, order)
                    &&& precedes(out@, left@.skip(i as int), order)
                    &&& precedes(out@, right@.skip(j + 1), order)
                } by {
                    lemma_taken(sofar, r, l, order, n);
                }
            }
            j = j + 1;
        }
    }
    assert(left@.take(i as int) =~= left@);
    assert(right@.take(j as int) =~= right@);
    out
}

/// The numbers from `lo` to below `hi`.
spec fn numbers(lo: int, hi: int) -> Seq<usize> {
    Seq::new((hi - lo) as nat, |k: int| (lo + k) as usize)
}

/// The names from `lo` to `hi` in order.
fn sort_range<F: Fn(usize, usize) -> Order>(lo: usize, hi: usize, count: usize, compare: &F) -> (
    out: Vec<usize>)
    requires
        lo <= hi <= count,
        forall|i: usize, j: usize| i < count && j < count ==> #[trigger] compare.requires((i, j)),
    ensures
        out@.to_multiset() == numbers(lo as int, hi as int).to_multiset(),
        in_range(out@, count as int),
        forall|order: spec_fn(int, int) -> Order| #[trigger]
            tells(*compare, order, count as int) ==> ascends(out@, order),
    decreases hi - lo,
{
    let mut out: Vec<usize> = Vec::new();
    if lo == hi {
        assert(out@ =~= numbers(lo as int, hi as int));
        return out;
    }
    if hi - lo == 1 {
        out.push(lo);
        assert(out@ =~= numbers(lo as int, hi as int));
        return out;
    }
    let mid: usize = lo + (hi - lo) / 2;
    let left = sort_range(lo, mid, count, compare);
    let right = sort_range(mid, hi, count, compare);
    proof {
        let a = numbers(lo as int, mid as int);
        let b = numbers(mid as int, hi as int);
        assert(numbers(lo as int, hi as int) =~= a + b);
        vstd::seq_lib::lemma_multiset_commutative(a, b);
    }
    merge(&left, &right, count, compare)
}

/// The ranks of `count` names, from the outcomes of comparing them: one rank is
/// below another exactly where its name comes first, and names that do not differ
/// have one rank. Outcomes that do not go together give ranks all the same.
pub fn ranks<F: Fn(usize, usize) -> Order>(count: usize, compare: F) -> (r: Vec<u64>)
    requires
        forall|i: usize, j: usize| i < count && j < count ==> #[trigger] compare.requires((i, j)),
    ensures
        r@.len() == count,
        forall|order: spec_fn(int, int) -> Order| #[trigger]
            tells(compare, order, count as int) ==> ranked(r@, order),
{
    let s = sort_range(0, count, count, &compare);
    let ghost n = count as int;
    proof {
        broadcast use vstd::seq_lib::group_to_multiset_ensures;

        assert(s@.to_multiset().len() == numbers(0, n).to_multiset().len());
    }
    let mut ranks: Vec<u64> = Vec::new();
    let mut k: usize = 0;
    while k < count
        invariant
            k <= count,
            ranks@.len() == k,
        decreases count - k,
    {
        ranks.push(0);
        k = k + 1;
    }
    let mut rank: u64 = 0;
    let ghost mut given: Seq<u64> = Seq::empty();
    let mut k: usize = 0;
    while k < count
        invariant
            k <= count,
            n == count as int,
            s@.len() == n,
            in_range(s@, n),
            ranks@.len() == n,
            rank <= k,
            given.len() == k,
            k > 0 ==> given[k - 1] == rank,
            forall|i: usize, j: usize|
                i < count && j < count ==> #[trigger] compare.requires((i, j)),
            forall|order: spec_fn(int, int) -> Order| #[trigger]
                tells(compare, order, n) ==> {
                    &&& ascends(s@, order)
                    &&& forall|a: int, b: int|
                        0 <= a <= b < k ==> int_order(
                            #[trigger] given[a] as int,
                            #[trigger] given[b] as int,
                        ) == order(s@[a] as int, s@[b] as int)
                    &&& forall|a: int|
                        0 <= a < k ==> ranks@[(#[trigger] s@[a]) as int] == given[a]
                },
        decreases count - k,
    {
        let ghost was = given;
        let ghost before = ranks@;
        let ghost mut step: Order = Order::Equal;
        if k > 0 {
            let o = compare(s[k - 1], s[k]);
            proof {
                step = o;
            }
            match o {
                Order::Equal => {},
                _ => {
                    rank = rank + 1;
                },
            }
        }
        ranks.set(s[k], rank);
        proof {
            given = given.push(rank);
            assert forall|order: spec_fn(int, int) -> Order| #[trigger]
                tells(compare, order, n) implies {
                &&& ascends(s@, order)
                &&& forall|a: int, b: int|
                    0 <= a <= b < k + 1 ==> int_order(
                        #[trigger] given[a] as int,
                        #[trigger] given[b] as int,
                    ) == order(s@[a] as int, s@[b] as int)
                &&& forall|a: int|
                    0 <= a < k + 1 ==> ranks@[(#[trigger] s@[a]) as int] == given[a]
            } by {
                let last = s@[k as int] as int;
                assert(order(last, last) == flipped(order(last, last)));
                assert forall|a: int, b: int| 0 <= a <= b < k + 1 implies int_order(
                    #[trigger] given[a] as int,
                    #[trigger] given[b] as int,
                ) == order(s@[a] as int, s@[b] as int) by {
                    if b < k {
                        assert(given[a] == was[a] && given[b] == was[b]);
                    } else if a < k {
                        let prev = s@[k - 1] as int;
                        assert(compare.ensures((s@[k - 1], s@[k as int]), step));
                        assert(step == order(prev, last));
                        assert(order(prev, last) != Order::Greater);
                        assert(given[a] == was[a]);
                        assert(int_order(was[a] as int, was[k - 1] as int) == order(
                            s@[a] as int,
                            prev,
                        ));
                        if a < k - 1 {
                            assert(order(s@[a] as int, prev) != Order::Greater);
                        } else {
                            assert(order(prev, prev) == flipped(order(prev, prev)));
                        }
                        assert(chains(
                            order(s@[a] as int, prev),
                            order(prev, last),
                            order(s@[a] as int, last),
                        ));
                    }
                }
                assert forall|a: int| 0 <= a < k + 1 implies ranks@[(#[trigger] s@[a]) as int]
                    == given[a] by {
                    if a < k {
                        assert(before[s@[a] as int] == was[a]);
                        assert(given[a] == was[a]);
                        if s@[a] == s@[k as int] {
                            assert(int_order(given[a] as int, given[k as int] as int) == order(
                                last,
                                last,
                            ));
                        }
                    }
                }
            }
        }
        k = k + 1;
    }
    proof {
        assert forall|order: spec_fn(int, int) -> Order| #[trigger]
            tells(compare, order, n) implies ranked(ranks@, order) by {
            assert forall|i: int, j: int|
                0 <= i < ranks@.len() && 0 <= j < ranks@.len() implies int_order(
                #[trigger] ranks@[i] as int,
                #[trigger] ranks@[j] as int,
            ) == order(i, j) by {
                let a = lemma_place(s@, n, i);
                let b = lemma_place(s@, n, j);
                assert(ranks@[s@[a] as int] == given[a]);
                assert(ranks@[s@[b] as int] == given[b]);
                assert(order(i, j) == flipped(order(j, i)));
                if a <= b {
                    assert(int_order(given[a] as int, given[b] as int) == order(i, j));
                } else {
                    assert(int_order(given[b] as int, given[a] as int) == order(j, i));
                }
            }
        }
    }
    ranks
}

proof fn lemma_place(s: Seq<usize>, n: int, i: int) -> (k: int)
    requires
        s.to_multiset() == numbers(0, n).to_multiset(),
        0 <= i < n <= usize::MAX,
    ensures
        0 <= k < s.len(),
        s[k] == i,
{
    broadcast use vstd::seq_lib::group_to_multiset_ensures;

    let all = numbers(0, n);
    assert(all[i] == i);
    assert(all.contains(i as usize));
    assert(s.to_multiset().count(i as usize) > 0);
    assert(s.contains(i as usize));
    choose|k: int| 0 <= k < s.len() && s[k] == i as usize
}

} // verus!
