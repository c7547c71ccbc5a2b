//! Sorting by keys: what comes before what, and the one order that follows.
use crate::config::{Config, Sort};
use crate::order::{
    bytes_order, chains, compare_bytes, compare_options, compare_paths, compare_u64, flipped,
    int_order, lemma_bytes_order_chains, lemma_bytes_order_flip, lemma_components_order_chains,
    lemma_components_order_flip, option_order, or_else, path_order, Order,
};
use crate::path::components;
use vstd::prelude::*;

verus! {

// ---------------------------------------------------------------------------
// Sort keys
// ---------------------------------------------------------------------------

/// What one entry is sorted by, as a value.
pub enum Key {
    /// Newest first.
    Time(int),
    /// Largest first, then by name.
    Size(int, Seq<u8>),
    Name(Seq<u8>),
    /// By the place that other rules give to the name.
    Rank(int),
    /// By the place that other rules give to the name, then by path.
    Version(int, Option<Seq<u8>>),
    /// By extension, then by the rest of the name.
    Extension(Option<Seq<u8>>, Option<Seq<u8>>),
    /// Shortest name first, then by name.
    Width(int, Seq<u8>),
    /// Nothing to sort by.
    Same,
}

pub open spec fn key_kind(k: Key) -> int {
    match k {
        Key::Time(_) => 0,
        Key::Size(_, _) => 1,
        Key::Name(_) => 2,
        Key::Rank(_) => 3,
        Key::Version(_, _) => 4,
        Key::Extension(_, _) => 5,
        Key::Width(_, _) => 6,
        Key::Same => 7,
    }
}

pub open spec fn option_path_order(a: Option<Seq<u8>>, b: Option<Seq<u8>>) -> Order {
    match (a, b) {
        (None, None) => Order::Equal,
        (None, Some(_)) => Order::Less,
        (Some(_), None) => Order::Greater,
        (Some(x), Some(y)) => path_order(x, y),
    }
}

/// Which of two keys comes first.
pub open spec fn key_order(a: Key, b: Key) -> Order {
    match (a, b) {
        (Key::Time(x), Key::Time(y)) => int_order(y, x),
        (Key::Size(x, m), Key::Size(y, n)) => or_else(int_order(y, x), bytes_order(m, n)),
        (Key::Name(m), Key::Name(n)) => bytes_order(m, n),
        (Key::Rank(x), Key::Rank(y)) => int_order(x, y),
        (Key::Version(x, p), Key::Version(y, q)) => or_else(
            int_order(x, y),
            option_path_order(p, q),
        ),
        (Key::Extension(e, s), Key::Extension(f, t)) => or_else(
            option_order(e, f),
            option_order(s, t),
        ),
        (Key::Width(x, m), Key::Width(y, n)) => or_else(int_order(x, y), bytes_order(m, n)),
        _ => int_order(key_kind(a), key_kind(b)),
    }
}

proof fn lemma_option_flip(a: Option<Seq<u8>>, b: Option<Seq<u8>>)
    ensures
        option_order(a, b) == flipped(option_order(b, a)),
        option_path_order(a, b) == flipped(option_path_order(b, a)),
{
    if a is Some && b is Some {
        lemma_bytes_order_flip(a->0, b->0);
        lemma_components_order_flip(components(a->0), components(b->0));
    }
}

proof fn lemma_option_chains(a: Option<Seq<u8>>, b: Option<Seq<u8>>, c: Option<Seq<u8>>)
    ensures
        chains(option_order(a, b), option_order(b, c), option_order(a, c)),
        chains(option_path_order(a, b), option_path_order(b, c), option_path_order(a, c)),
{
    if a is Some && b is Some && c is Some {
        lemma_bytes_order_chains(a->0, b->0, c->0);
        lemma_components_order_chains(components(a->0), components(b->0), components(c->0));
    }
}

/// Turning two keys round turns the outcome round.
pub proof fn lemma_key_order_flip(a: Key, b: Key)
    ensures
        key_order(a, b) == flipped(key_order(b, a)),
{
    match (a, b) {
        (Key::Size(_, m), Key::Size(_, n)) => lemma_bytes_order_flip(m, n),
        (Key::Name(m), Key::Name(n)) => lemma_bytes_order_flip(m, n),
        (Key::Version(_, p), Key::Version(_, q)) => lemma_option_flip(p, q),
        (Key::Extension(e, s), Key::Extension(f, t)) => {
            lemma_option_flip(e, f);
            lemma_option_flip(s, t);
        },
        (Key::Width(_, m), Key::Width(_, n)) => lemma_bytes_order_flip(m, n),
        _ => {},
    }
}

/// The order of keys has no cycles.
pub proof fn lemma_key_order_chains(a: Key, b: Key, c: Key)
    ensures
        chains(key_order(a, b), key_order(b, c), key_order(a, c)),
{
    match (a, b, c) {
        (Key::Size(_, l), Key::Size(_, m), Key::Size(_, n)) => lemma_bytes_order_chains(l, m, n),
        (Key::Name(l), Key::Name(m), Key::Name(n)) => lemma_bytes_order_chains(l, m, n),
        (Key::Version(_, p), Key::Version(_, q), Key::Version(_, r)) => lemma_option_chains(
            p,
            q,
            r,
        ),
        (Key::Extension(e, s), Key::Extension(f, t), Key::Extension(g, u)) => {
            lemma_option_chains(e, f, g);
            lemma_option_chains(s, t, u);
        },
        (Key::Width(_, l), Key::Width(_, m), Key::Width(_, n)) => lemma_bytes_order_chains(
            l,
            m,
            n,
        ),
        _ => {},
    }
}

// ---------------------------------------------------------------------------
// Arrangements
// ---------------------------------------------------------------------------

/// Whether entry `i` comes before entry `j`: by its key, or else by its place.
pub open spec fn before(keys: Seq<Key>, i: int, j: int) -> bool {
    match key_order(keys[i], keys[j]) {
        Order::Less => true,
        Order::Equal => i < j,
        Order::Greater => false,
    }
}

pub open spec fn ordered(keys: Seq<Key>, s: Seq<usize>) -> bool {
    forall|a: int, b: int|
        0 <= a < b < s.len() ==> before(keys, #[trigger] s[a] as int, #[trigger] s[b] as int)
}

/// Whether `s` names all entries, each once, in their order.
pub open spec fn arrangement(keys: Seq<Key>, s: Seq<usize>) -> bool {
    &&& s.len() == keys.len()
    &&& forall|k: int| 0 <= k < s.len() ==> (#[trigger] s[k]) < keys.len()
    &&& ordered(keys, s)
}

proof fn lemma_before(keys: Seq<Key>, i: int, j: int, k: int)
    ensures
        before(keys, i, j) && before(keys, j, k) ==> before(keys, i, k),
        !(before(keys, i, j) && before(keys, j, i)),
        !before(keys, i, i),
{
    lemma_key_order_flip(keys[i], keys[j]);
    lemma_key_order_flip(keys[i], keys[i]);
    lemma_key_order_chains(keys[i], keys[j], keys[k]);
}

/// An arrangement names every entry exactly once.
pub proof fn law_arrangement_is_permutation(keys: Seq<Key>, s: Seq<usize>)
    requires
        arrangement(keys, s),
    ensures
        s.no_duplicates(),
        forall|i: usize| i < keys.len() ==> #[trigger] s.contains(i),
{
    let n = keys.len() as int;
    assert(s.no_duplicates()) by {
        assert forall|a: int, b: int| 0 <= a < s.len() && 0 <= b < s.len() && a != b implies s[a]
            != s[b] by {
            if a < b {
                lemma_before(keys, s[a] as int, s[b] as int, s[a] as int);
            } else {
                lemma_before(keys, s[b] as int, s[a] as int, s[b] as int);
            }
        }
    }
    let ints = Seq::new(s.len(), |k: int| s[k] as int);
    assert(ints.no_duplicates());
    ints.unique_seq_to_set();
    let range = vstd::set_lib::set_int_range(0, n);
    vstd::set_lib::lemma_int_range(0, n);
    assert(ints.to_set().subset_of(range)) by {
        assert forall|x: int| ints.to_set().contains(x) implies range.contains(x) by {
            let k = choose|k: int| 0 <= k < ints.len() && ints[k] == x;
            assert(s[k] < keys.len());
        }
    }
    vstd::set_lib::lemma_subset_equality(ints.to_set(), range);
    assert forall|i: usize| i < keys.len() implies #[trigger] s.contains(i) by {
        assert(range.contains(i as int));
        assert(ints.to_set().contains(i as int));
        let k = choose|k: int| 0 <= k < ints.len() && ints[k] == i as int;
        assert(s[k] == i);
    }
}

/// There is one arrangement only: the order of a listing is determined.
pub proof fn law_arrangement_is_unique(keys: Seq<Key>, s: Seq<usize>, t: Seq<usize>)
    requires
        arrangement(keys, s),
        arrangement(keys, t),
    ensures
        s == t,
{
    law_arrangement_is_permutation(keys, s);
    law_arrangement_is_permutation(keys, t);
    lemma_arrangements_agree(keys, s, t, s.len() as int);
    assert(s =~= t);
}

proof fn lemma_arrangements_agree(keys: Seq<Key>, s: Seq<usize>, t: Seq<usize>, n: int)
    requires
        arrangement(keys, s),
        arrangement(keys, t),
        s.no_duplicates(),
        t.no_duplicates(),
        forall|i: usize| i < keys.len() ==> #[trigger] s.contains(i),
        forall|i: usize| i < keys.len() ==> #[trigger] t.contains(i),
        0 <= n <= s.len(),
    ensures
        forall|k: int| 0 <= k < n ==> s[k] == t[k],
    decreases n,
{
    if n > 0 {
        lemma_arrangements_agree(keys, s, t, n - 1);
        let k = n - 1;
        let x = s[k] as int;
        let y = t[k] as int;
        if x != y {
            assert(t.contains(s[k]));
            assert(s.contains(t[k]));
            let m = choose|m: int| 0 <= m < t.len() && t[m] == s[k];
            let q = choose|q: int| 0 <= q < s.len() && s[q] == t[k];
            if m < k {
                assert(s[m] == t[m]);
                assert(false);
            }
            if q < k {
                assert(s[q] == t[q]);
                assert(false);
            }
            assert(before(keys, t[k] as int, t[m] as int));
            assert(before(keys, s[k] as int, s[q] as int));
            lemma_before(keys, x, y, x);
        }
    }
}

/// The entries of one kind, in the order in which they stand.
pub open spec fn pick(s: Seq<usize>, dirs: Seq<bool>, want: bool) -> Seq<usize>
    decreases s.len(),
{
    if s.len() == 0 {
        Seq::empty()
    } else if dirs[s.last() as int] == want {
        pick(s.drop_last(), dirs, want).push(s.last())
    } else {
        pick(s.drop_last(), dirs, want)
    }
}

pub open spec fn turned(s: Seq<usize>, reverse: bool) -> Seq<usize> {
    if reverse {
        s.reverse()
    } else {
        s
    }
}

/// A sorted order, turned round if so wanted, then with directories in front if
/// so wanted.
pub open spec fn arranged(s: Seq<usize>, dirs: Seq<bool>, reverse: bool, group: bool) -> Seq<
    usize,
> {
    let t = turned(s, reverse);
    if group {
        pick(t, dirs, true) + pick(t, dirs, false)
    } else {
        t
    }
}

/// Whether `order` is the order of a listing.
pub open spec fn listing_order(
    keys: Seq<Key>,
    dirs: Seq<bool>,
    config: Config,
    order: Seq<usize>,
) -> bool {
    exists|s: Seq<usize>| #[trigger]
        arrangement(keys, s) && order == arranged(
            s,
            dirs,
            config.reverse,
            config.group_directories_first && config.sort != Sort::Unsorted,
        )
}

/// The order of a listing is determined by its keys and its directories.
pub proof fn law_listing_order_is_unique(
    keys: Seq<Key>,
    dirs: Seq<bool>,
    config: Config,
    a: Seq<usize>,
    b: Seq<usize>,
)
    requires
        listing_order(keys, dirs, config, a),
        listing_order(keys, dirs, config, b),
    ensures
        a == b,
{
    let group = config.group_directories_first && config.sort != Sort::Unsorted;
    let s = choose|s: Seq<usize>| #[trigger]
        arrangement(keys, s) && a == arranged(s, dirs, config.reverse, group);
    let t = choose|t: Seq<usize>| #[trigger]
        arrangement(keys, t) && b == arranged(t, dirs, config.reverse, group);
    law_arrangement_is_unique(keys, s, t);
}

/// A key in memory.
pub enum SortKey {
    Time(i128),
    Size(u64, Vec<u8>),
    Name(Vec<u8>),
    Rank(u64),
    Version(u64, Option<Vec<u8>>),
    Extension(Option<Vec<u8>>, Option<Vec<u8>>),
    Width(u64, Vec<u8>),
    Same,
}

pub open spec fn option_view(o: Option<Vec<u8>>) -> Option<Seq<u8>> {
    match o {
        Some(v) => Some(v@),
        None => None,
    }
}

impl View for SortKey {
    type V = Key;

    open spec fn view(&self) -> Key {
        match *self {
            SortKey::Time(t) => Key::Time(t as int),
            SortKey::Size(n, name) => Key::Size(n as int, name@),
            SortKey::Name(name) => Key::Name(name@),
            SortKey::Rank(n) => Key::Rank(n as int),
            SortKey::Version(n, p) => Key::Version(n as int, option_view(p)),
            SortKey::Extension(e, s) => Key::Extension(option_view(e), option_view(s)),
            SortKey::Width(n, name) => Key::Width(n as int, name@),
            SortKey::Same => Key::Same,
        }
    }
}

pub open spec fn keys_view(keys: Seq<SortKey>) -> Seq<Key> {
    Seq::new(keys.len(), |k: int| keys[k]@)
}

fn option_slice(o: &Option<Vec<u8>>) -> (r: Option<&[u8]>)
    ensures
        match r {
            Some(s) => option_view(*o) == Some(s@),
            None => option_view(*o) is None,
        },
{
    match o {
        Some(v) => Some(v.as_slice()),
        None => None,
    }
}

fn compare_paths_opt(a: Option<&[u8]>, b: Option<&[u8]>) -> (r: Order)
    ensures
        r == option_path_order(
            match a {
                Some(x) => Some(x@),
                None => None,
            },
            match b {
                Some(x) => Some(x@),
                None => None,
            },
        ),
{
    match (a, b) {
        (None, None) => Order::Equal,
        (None, Some(_)) => Order::Less,
        (Some(_), None) => Order::Greater,
        (Some(x), Some(y)) => compare_paths(x, y),
    }
}

fn kind_of(k: &SortKey) -> (r: u64)
    ensures
        r == key_kind(k@),
{
    match k {
        SortKey::Time(_) => 0,
        SortKey::Size(_, _) => 1,
        SortKey::Name(_) => 2,
        SortKey::Rank(_) => 3,
        SortKey::Version(_, _) => 4,
        SortKey::Extension(_, _) => 5,
        SortKey::Width(_, _) => 6,
        SortKey::Same => 7,
    }
}

pub fn compare_keys(a: &SortKey, b: &SortKey) -> (r: Order)
    ensures
        r == key_order(a@, b@),
{
    match (a, b) {
        (SortKey::Time(x), SortKey::Time(y)) => {
            if *y < *x {
                Order::Less
            } else if *y == *x {
                Order::Equal
            } else {
                Order::Greater
            }
        },
        (SortKey::Size(x, m), SortKey::Size(y, n)) => match compare_u64(*y, *x) {
            Order::Equal => compare_bytes(m.as_slice(), n.as_slice()),
            o => o,
        },
        (SortKey::Name(m), SortKey::Name(n)) => compare_bytes(m.as_slice(), n.as_slice()),
        (SortKey::Rank(x), SortKey::Rank(y)) => compare_u64(*x, *y),
        (SortKey::Version(x, p), SortKey::Version(y, q)) => match compare_u64(*x, *y) {
            Order::Equal => compare_paths_opt(option_slice(p), option_slice(q)),
            o => o,
        },
        (SortKey::Extension(e, s), SortKey::Extension(f, t)) => match compare_options(
            option_slice(e),
            option_slice(f),
        ) {
            Order::Equal => compare_options(option_slice(s), option_slice(t)),
            o => o,
        },
        (SortKey::Width(x, m), SortKey::Width(y, n)) => match compare_u64(*x, *y) {
            Order::Equal => compare_bytes(m.as_slice(), n.as_slice()),
            o => o,
        },
        _ => compare_u64(kind_of(a), kind_of(b)),
    }
}

/// Two sorted runs, the first one of earlier entries, made into one.
fn merge(keys: &Vec<SortKey>, left: Vec<usize>, right: Vec<usize>, mid: usize) -> (out: Vec<usize>)
    requires
        mid <= keys@.len(),
        forall|k: int| 0 <= k < left@.len() ==> (#[trigger] left@[k]) < mid,
        forall|k: int| 0 <= k < right@.len() ==> mid <= (#[trigger] right@[k]) < keys@.len(),
        ordered(keys_view(keys@), left@),
        ordered(keys_view(keys@), right@),
        left@.len() + right@.len() <= usize::MAX,
    ensures
        out@.len() == left@.len() + right@.len(),
        forall|k: int|
            0 <= k < out@.len() ==> left@.contains(#[trigger] out@[k]) || right@.contains(out@[k]),
        ordered(keys_view(keys@), out@),
{
    let ghost kv = keys_view(keys@);
    let mut out: Vec<usize> = Vec::new();
    let mut i: usize = 0;
    let mut j: usize = 0;
    while i < left.len() || j < right.len()
        invariant
            kv == keys_view(keys@),
            mid <= keys@.len(),
            forall|k: int| 0 <= k < left@.len() ==> (#[trigger] left@[k]) < mid,
            forall|k: int| 0 <= k < right@.len() ==> mid <= (#[trigger] right@[k]) < keys@.len(),
            ordered(kv, left@),
            ordered(kv, right@),
            i <= left@.len(),
            j <= right@.len(),
            out@.len() == i + j,
            ordered(kv, out@),
            forall|k: int|
                0 <= k < out@.len() ==> left@.contains(#[trigger] out@[k]) || right@.contains(
                    out@[k],
                ),
            forall|a: int, b: int|
                0 <= a < out@.len() && i <= b < left@.len() ==> before(
                    kv,
                    #[trigger] out@[a] as int,
                    #[trigger] left@[b] as int,
                ),
            forall|a: int, b: int|
                0 <= a < out@.len() && j <= b < right@.len() ==> before(
                    kv,
                    #[trigger] out@[a] as int,
                    #[trigger] right@[b] as int,
                ),
        decreases left@.len() - i + right@.len() - j,
    {
        let ghost sofar = out@;
        let take_left = if i < left.len() && j < right.len() {
            match compare_keys(&keys[left[i]], &keys[right[j]]) {
                Order::Greater => false,
                _ => true,
            }
        } else {
            i < left.len()
        };
        if take_left {
            let x: usize = left[i];
            out.push(x);
            proof {
                assert(left@.contains(left@[i as int]));
                assert forall|k: int| 0 <= k < out@.len() implies left@.contains(
                    #[trigger] out@[k],
                ) || right@.contains(out@[k]) by {
                    if k < sofar.len() {
                        assert(out@[k] == sofar[k]);
                    }
                }
                assert forall|a: int, b: int|
                    0 <= a < out@.len() && j <= b < right@.len() implies before(
                    kv,
                    #[trigger] out@[a] as int,
                    #[trigger] right@[b] as int,
                ) by {
                    if a < sofar.len() {
                        assert(out@[a] == sofar[a]);
                    } else {
                        assert(before(kv, x as int, right@[j as int] as int));
                        lemma_before(kv, x as int, right@[j as int] as int, right@[b] as int);
                    }
                }
                assert forall|a: int, b: int|
                    0 <= a < out@.len() && i + 1 <= b < left@.len() implies before(
                    kv,
                    #[trigger] out@[a] as int,
                    #[trigger] left@[b] as int,
                ) by {
                    if a < sofar.len() {
                        assert(out@[a] == sofar[a]);
                    }
                }
                assert(ordered(kv, out@));
            }
            i = i + 1;
        } else {
            let x: usize = right[j];
            out.push(x);
            proof {
                assert(right@.contains(right@[j as int]));
                assert forall|k: int| 0 <= k < out@.len() implies left@.contains(
                    #[trigger] out@[k],
                ) || right@.contains(out@[k]) by {
                    if k < sofar.len() {
                        assert(out@[k] == sofar[k]);
                    }
                }
                assert forall|a: int, b: int|
                    0 <= a < out@.len() && i <= b < left@.len() implies before(
                    kv,
                    #[trigger] out@[a] as int,
                    #[trigger] left@[b] as int,
                ) by {
                    if a < sofar.len() {
                        assert(out@[a] == sofar[a]);
                    } else {
                        lemma_key_order_flip(kv[left@[i as int] as int], kv[x as int]);
                        assert(before(kv, x as int, left@[i as int] as int));
                        lemma_before(kv, x as int, left@[i as int] as int, left@[b] as int);
                    }
                }
                assert forall|a: int, b: int|
                    0 <= a < out@.len() && j + 1 <= b < right@.len() implies before(
                    kv,
                    #[trigger] out@[a] as int,
                    #[trigger] right@[b] as int,
                ) by {
                    if a < sofar.len() {
                        assert(out@[a] == sofar[a]);
                    }
                }
                assert(ordered(kv, out@));
            }
            j = j + 1;
        }
    }
    out
}

/// The entries from `lo` to `hi` in order.
fn sort_range(keys: &Vec<SortKey>, lo: usize, hi: usize) -> (out: Vec<usize>)
    requires
        lo <= hi <= keys@.len(),
    ensures
        out@.len() == hi - lo,
        forall|k: int| 0 <= k < out@.len() ==> lo <= (#[trigger] out@[k]) < hi,
        ordered(keys_view(keys@), out@),
    decreases hi - lo,
{
    let mut out: Vec<usize> = Vec::new();
    if lo == hi {
        return out;
    }
    if hi - lo == 1 {
        out.push(lo);
        return out;
    }
    let mid: usize = lo + (hi - lo) / 2;
    let left = sort_range(keys, lo, mid);
    let right = sort_range(keys, mid, hi);
    merge(keys, left, right, mid)
}

/// The order of entries by their keys; entries with equal keys keep their places.
pub fn sort_keys(keys: &Vec<SortKey>) -> (out: Vec<usize>)
    ensures
        arrangement(keys_view(keys@), out@),
{
    sort_range(keys, 0, keys.len())
}

/// The entries of one kind.
fn pick_from(s: &Vec<usize>, dirs: &Vec<bool>, want: bool, out: &mut Vec<usize>)
    requires
        forall|k: int| 0 <= k < s@.len() ==> (#[trigger] s@[k]) < dirs@.len(),
    ensures
        final(out)@ == old(out)@ + pick(s@, dirs@, want),
{
    let n: usize = s.len();
    let ghost start = out@;
    let mut i: usize = 0;
    assert(s@.take(0) =~= Seq::empty());
    assert(out@ =~= start + pick(s@.take(0), dirs@, want));
    while i < n
        invariant
            n == s@.len(),
            i <= n,
            forall|k: int| 0 <= k < s@.len() ==> (#[trigger] s@[k]) < dirs@.len(),
            out@ == start + pick(s@.take(i as int), dirs@, want),
        decreases n - i,
    {
        assert(s@.take(i + 1).drop_last() =~= s@.take(i as int));
        if dirs[s[i]] == want {
            out.push(s[i]);
        }
        i = i + 1;
        assert(out@ =~= start + pick(s@.take(i as int), dirs@, want));
    }
    assert(s@.take(n as int) =~= s@);
}

/// The order of a listing.
pub fn arrange(keys: &Vec<SortKey>, dirs: &Vec<bool>, config: &Config) -> (out: Vec<usize>)
    requires
        keys@.len() == dirs@.len(),
    ensures
        listing_order(keys_view(keys@), dirs@, *config, out@),
{
    let sorted = sort_keys(keys);
    let ghost s = sorted@;
    let n: usize = sorted.len();
    let order = if config.reverse {
        let mut t: Vec<usize> = Vec::new();
        let mut i: usize = n;
        assert(sorted@.subrange(n as int, n as int).reverse() =~= t@);
        while i > 0
            invariant
                i <= n,
                n == sorted@.len(),
                t@ == sorted@.subrange(i as int, n as int).reverse(),
            decreases i,
        {
            i = i - 1;
            t.push(sorted[i]);
            assert(t@ =~= sorted@.subrange(i as int, n as int).reverse());
        }
        assert(sorted@.subrange(0, n as int) =~= sorted@);
        t
    } else {
        sorted
    };
    assert(order@ == turned(s, config.reverse));
    let sorts = match config.sort {
        Sort::Unsorted => false,
        _ => true,
    };
    if config.group_directories_first && sorts {
        let mut out: Vec<usize> = Vec::new();
        assert forall|k: int| 0 <= k < order@.len() implies (#[trigger] order@[k]) < dirs@.len() by {
            if config.reverse {
                assert(order@[k] == s[s.len() - 1 - k]);
            }
        }
        pick_from(&order, dirs, true, &mut out);
        pick_from(&order, dirs, false, &mut out);
        assert(out@ =~= arranged(s, dirs@, config.reverse, true));
        out
    } else {
        order
    }
}

/// Whether entries run in the order of their keys, or against it.
pub open spec fn runs(keys: Seq<Key>, s: Seq<usize>, reverse: bool) -> bool {
    forall|a: int, b: int|
        0 <= a < b < s.len() ==> if reverse {
            before(keys, #[trigger] s[b] as int, #[trigger] s[a] as int)
        } else {
            before(keys, s[a] as int, s[b] as int)
        }
}

proof fn lemma_pick(keys: Seq<Key>, s: Seq<usize>, dirs: Seq<bool>, want: bool, reverse: bool)
    requires
        s.no_duplicates(),
        runs(keys, s, reverse),
    ensures
        pick(s, dirs, want).no_duplicates(),
        runs(keys, pick(s, dirs, want), reverse),
        forall|k: int|
            0 <= k < pick(s, dirs, want).len() ==> s.contains(#[trigger] pick(s, dirs, want)[k])
                && dirs[pick(s, dirs, want)[k] as int] == want,
        forall|e: usize|
            #![trigger pick(s, dirs, want).contains(e)]
            s.contains(e) && dirs[e as int] == want ==> pick(s, dirs, want).contains(e),
    decreases s.len(),
{
    if s.len() > 0 {
        let front = s.drop_last();
        let rest = pick(front, dirs, want);
        let all = pick(s, dirs, want);
        assert forall|a: int, b: int| 0 <= a < b < front.len() implies if reverse {
            before(keys, #[trigger] front[b] as int, #[trigger] front[a] as int)
        } else {
            before(keys, front[a] as int, front[b] as int)
        } by {
            assert(front[a] == s[a] && front[b] == s[b]);
        }
        lemma_pick(keys, front, dirs, want, reverse);
        assert forall|k: int| 0 <= k < all.len() implies s.contains(#[trigger] all[k])
            && dirs[all[k] as int] == want by {
            if k < rest.len() {
                assert(all[k] == rest[k]);
                let j = choose|j: int| 0 <= j < front.len() && front[j] == rest[k];
                assert(s[j] == all[k]);
            } else {
                assert(s[s.len() - 1] == all[k]);
            }
        }
        assert forall|e: usize| s.contains(e) && dirs[e as int] == want implies
            #[trigger] all.contains(e) by {
            let j = choose|j: int| 0 <= j < s.len() && s[j] == e;
            if j < front.len() {
                assert(front[j] == e);
                assert(front.contains(e));
                assert(rest.contains(e));
                let m = choose|m: int| 0 <= m < rest.len() && rest[m] == e;
                assert(all[m] == e);
            } else {
                assert(all[all.len() - 1] == e);
            }
        }
        assert forall|a: int, b: int| 0 <= a < b < all.len() implies all[a] != all[b] && if reverse {
            before(keys, #[trigger] all[b] as int, #[trigger] all[a] as int)
        } else {
            before(keys, all[a] as int, all[b] as int)
        } by {
            assert(all[a] == rest[a]);
            if b < rest.len() {
                assert(all[b] == rest[b]);
            } else {
                let j = choose|j: int| 0 <= j < front.len() && front[j] == rest[a];
                assert(s[j] == all[a]);
                assert(s[s.len() - 1] == all[b]);
            }
        }
    }
}

proof fn lemma_pick_lengths(s: Seq<usize>, dirs: Seq<bool>)
    ensures
        pick(s, dirs, true).len() + pick(s, dirs, false).len() == s.len(),
    decreases s.len(),
{
    if s.len() > 0 {
        lemma_pick_lengths(s.drop_last(), dirs);
    }
}

proof fn lemma_turned(keys: Seq<Key>, s: Seq<usize>, reverse: bool)
    requires
        arrangement(keys, s),
    ensures
        turned(s, reverse).len() == keys.len(),
        turned(s, reverse).no_duplicates(),
        forall|i: usize| i < keys.len() ==> #[trigger] turned(s, reverse).contains(i),
        forall|k: int| 0 <= k < turned(s, reverse).len() ==> (#[trigger] turned(s, reverse)[k])
            < keys.len(),
        runs(keys, turned(s, reverse), reverse),
{
    law_arrangement_is_permutation(keys, s);
    let t = turned(s, reverse);
    assert forall|i: usize| i < keys.len() implies #[trigger] t.contains(i) by {
        assert(s.contains(i));
        let k = choose|k: int| 0 <= k < s.len() && s[k] == i;
        if reverse {
            assert(t[s.len() - 1 - k] == i);
        } else {
            assert(t[k] == i);
        }
    }
}

/// A listing shows every entry exactly once.
pub proof fn law_listing_is_permutation(
    keys: Seq<Key>,
    dirs: Seq<bool>,
    config: Config,
    order: Seq<usize>,
)
    requires
        keys.len() == dirs.len(),
        listing_order(keys, dirs, config, order),
    ensures
        order.len() == keys.len(),
        order.no_duplicates(),
        forall|k: int| 0 <= k < order.len() ==> (#[trigger] order[k]) < keys.len(),
        forall|i: usize| i < keys.len() ==> #[trigger] order.contains(i),
{
    let group = config.group_directories_first && config.sort != Sort::Unsorted;
    let s = choose|s: Seq<usize>| #[trigger]
        arrangement(keys, s) && order == arranged(s, dirs, config.reverse, group);
    let t = turned(s, config.reverse);
    lemma_turned(keys, s, config.reverse);
    if group {
        lemma_pick(keys, t, dirs, true, config.reverse);
        lemma_pick(keys, t, dirs, false, config.reverse);
        lemma_pick_lengths(t, dirs);
        let front = pick(t, dirs, true);
        let back = pick(t, dirs, false);
        assert forall|k: int| 0 <= k < order.len() implies (#[trigger] order[k]) < keys.len() by {
            let e = order[k];
            if k < front.len() {
                assert(e == front[k]);
            } else {
                assert(e == back[k - front.len()]);
            }
            assert(t.contains(e));
        }
        assert forall|a: int, b: int| 0 <= a < order.len() && 0 <= b < order.len() && a != b implies
            order[a] != order[b] by {
            if a < front.len() {
                assert(order[a] == front[a]);
            } else {
                assert(order[a] == back[a - front.len()]);
            }
            if b < front.len() {
                assert(order[b] == front[b]);
            } else {
                assert(order[b] == back[b - front.len()]);
            }
        }
        assert forall|i: usize| i < keys.len() implies #[trigger] order.contains(i) by {
            assert(t.contains(i));
            if dirs[i as int] {
                assert(front.contains(i));
                let k = choose|k: int| 0 <= k < front.len() && front[k] == i;
                assert(order[k] == i);
            } else {
                assert(back.contains(i));
                let k = choose|k: int| 0 <= k < back.len() && back[k] == i;
                assert(order[front.len() + k] == i);
            }
        }
    }
}

/// Where directories are grouped, none comes after another entry. Entries of
/// one group, or all entries where there are no groups, run in the order of
/// their keys, or against it where the listing is reversed.
pub proof fn law_listing_is_sorted(
    keys: Seq<Key>,
    dirs: Seq<bool>,
    config: Config,
    order: Seq<usize>,
    a: int,
    b: int,
)
    requires
        keys.len() == dirs.len(),
        listing_order(keys, dirs, config, order),
        0 <= a < b < order.len(),
    ensures
        ({
            let group = config.group_directories_first && config.sort != Sort::Unsorted;
            let x = order[a] as int;
            let y = order[b] as int;
            &&& group && dirs[y] ==> dirs[x]
            &&& !group || dirs[x] == dirs[y] ==> if config.reverse {
                before(keys, y, x)
            } else {
                before(keys, x, y)
            }
        }),
{
    let group = config.group_directories_first && config.sort != Sort::Unsorted;
    let s = choose|s: Seq<usize>| #[trigger]
        arrangement(keys, s) && order == arranged(s, dirs, config.reverse, group);
    let t = turned(s, config.reverse);
    lemma_turned(keys, s, config.reverse);
    if group {
        lemma_pick(keys, t, dirs, true, config.reverse);
        lemma_pick(keys, t, dirs, false, config.reverse);
        let front = pick(t, dirs, true);
        let back = pick(t, dirs, false);
        if a < front.len() {
            assert(order[a] == front[a]);
        } else {
            assert(order[a] == back[a - front.len()]);
        }
        if b < front.len() {
            assert(order[b] == front[b]);
        } else {
            assert(order[b] == back[b - front.len()]);
        }
    }
}

/// The items from the last to the first.
pub fn reversed<T>(items: Vec<T>) -> (r: Vec<T>)
    ensures
        r@ == items@.reverse(),
{
    let ghost all = items@;
    let mut items = items;
    let mut out: Vec<T> = Vec::new();
    while items.len() > 0
        invariant
            items@.len() + out@.len() == all.len(),
            items@ == all.take(items@.len() as int),
            forall|k: int|
                0 <= k < out@.len() ==> #[trigger] out@[k] == all[all.len() - 1 - k],
        decreases items@.len(),
    {
        let ghost before = items@;
        if let Some(e) = items.pop() {
            assert(e == all[before.len() - 1]);
            assert(items@ =~= all.take(items@.len() as int));
            out.push(e);
        }
    }
    assert(out@ =~= all.reverse());
    out
}

/// The items in a given order.
pub open spec fn rearranged<T>(items: Seq<T>, order: Seq<usize>) -> Seq<T> {
    Seq::new(order.len(), |k: int| items[order[k] as int])
}

/// Items that were put in another order are the same items, each as often.
pub proof fn law_rearranged_holds_the_same<T>(items: Seq<T>, order: Seq<usize>)
    requires
        order.len() == items.len() <= usize::MAX,
        order.no_duplicates(),
        forall|k: int| 0 <= k < order.len() ==> (#[trigger] order[k]) < items.len(),
        forall|i: usize| i < items.len() ==> #[trigger] order.contains(i),
    ensures
        rearranged(items, order).to_multiset() == items.to_multiset(),
    decreases items.len(),
{
    broadcast use vstd::seq_lib::group_to_multiset_ensures;

    let all = rearranged(items, order);
    if items.len() == 0 {
        assert(all =~= items);
    } else {
        let n = (items.len() - 1) as usize;
        assert(order.contains(n));
        let k = choose|k: int| 0 <= k < order.len() && order[k] == n;
        let fewer = order.remove(k);
        let front = items.drop_last();
        assert forall|j: int| 0 <= j < fewer.len() implies (#[trigger] fewer[j]) < front.len() by {
            let o = if j < k {
                j
            } else {
                j + 1
            };
            assert(fewer[j] == order[o]);
            assert(order[o] != order[k]);
        }
        assert forall|i: usize| i < front.len() implies #[trigger] fewer.contains(i) by {
            assert(order.contains(i));
            let o = choose|o: int| 0 <= o < order.len() && order[o] == i;
            let j = if o < k {
                o
            } else {
                o - 1
            };
            assert(fewer[j] == i);
        }
        law_rearranged_holds_the_same(front, fewer);
        assert(rearranged(front, fewer) =~= all.remove(k));
        assert(items =~= front.push(items.last()));
        assert(all[k] == items.last());
        assert(all.contains(all[k]));
        assert(all.to_multiset() =~= all.remove(k).to_multiset().insert(all[k]));
    }
}

/// Puts items in a given order.
pub fn rearrange<T>(items: Vec<T>, order: &Vec<usize>) -> (r: Vec<T>)
    requires
        order@.no_duplicates(),
        forall|k: int| 0 <= k < order@.len() ==> (#[trigger] order@[k]) < items@.len(),
    ensures
        r@ == rearranged(items@, order@),
{
    let ghost all = items@;
    let n: usize = items.len();
    let mut items = reversed(items);
    let mut slots: Vec<Option<T>> = Vec::new();
    while items.len() > 0
        invariant
            n == all.len(),
            items@.len() + slots@.len() == n,
            forall|k: int| 0 <= k < items@.len() ==> #[trigger] items@[k] == all[n - 1 - k],
            forall|k: int| 0 <= k < slots@.len() ==> #[trigger] slots@[k] == Some(all[k]),
        decreases items@.len(),
    {
        assert(items@[items@.len() - 1] == all[n - items@.len()]);
        if let Some(e) = items.pop() {
            slots.push(Some(e));
        }
    }
    let mut out: Vec<T> = Vec::new();
    let mut i: usize = 0;
    while i < order.len()
        invariant
            n == all.len(),
            slots@.len() == n,
            i <= order@.len(),
            order@.no_duplicates(),
            forall|k: int| 0 <= k < order@.len() ==> (#[trigger] order@[k]) < n,
            out@.len() == i,
            forall|k: int| 0 <= k < i ==> #[trigger] out@[k] == all[order@[k] as int],
            forall|m: int|
                i <= m < order@.len() ==> slots@[(#[trigger] order@[m]) as int] == Some(
                    all[order@[m] as int],
                ),
        decreases order@.len() - i,
    {
        let at: usize = order[i];
        let ghost sofar = slots@;
        let mut hole: Option<T> = None;
        std::mem::swap(&mut slots[at], &mut hole);
        assert(hole == sofar[at as int]);
        if let Some(e) = hole {
            out.push(e);
        }
        assert(slots@ =~= sofar.update(at as int, None));
        assert forall|m: int| i + 1 <= m < order@.len() implies slots@[(
        #[trigger] order@[m]) as int] == Some(all[order@[m] as int]) by {
            assert(order@[m] != order@[i as int]);
        }
        i = i + 1;
    }
    assert(out@ =~= rearranged(all, order@));
    out
}

} // verus!
