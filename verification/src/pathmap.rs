//! Values kept by path. Two paths with the same components are one key.
use crate::order::{
    compare_paths, lemma_components_order_chains, lemma_components_order_flip, path_order, Order,
};
use crate::path::{components, Component};
use vstd::prelude::*;

verus! {

/// Values kept by path, in the order of the paths.
pub struct PathMap<V> {
    entries: Vec<(Vec<u8>, V)>,
}

/// Whether each entry comes before those behind it.
spec fn sorted<V>(entries: Seq<(Vec<u8>, V)>) -> bool {
    forall|i: int, j: int|
        0 <= i < j < entries.len() ==> path_order(
            (#[trigger] entries[i]).0@,
            (#[trigger] entries[j]).0@,
        ) == Order::Less
}

proof fn lemma_sorted_is_distinct<V>(entries: Seq<(Vec<u8>, V)>)
    requires
        sorted(entries),
    ensures
        distinct(entries),
{
    assert forall|i: int, j: int| 0 <= i < j < entries.len() implies components(
        (#[trigger] entries[i]).0@,
    ) != components((#[trigger] entries[j]).0@) by {
        lemma_components_order_flip(components(entries[i].0@), components(entries[j].0@));
    }
}

/// Whether `at` is where an entry of this path stands, or would stand.
spec fn is_place<V>(entries: Seq<(Vec<u8>, V)>, path: Seq<u8>, at: int) -> bool {
    &&& 0 <= at <= entries.len()
    &&& forall|k: int|
        0 <= k < at ==> path_order((#[trigger] entries[k]).0@, path) == Order::Less
    &&& forall|k: int|
        at < k < entries.len() ==> path_order((#[trigger] entries[k]).0@, path) == Order::Greater
}

/// Whether no two entries have the same key.
spec fn distinct<V>(entries: Seq<(Vec<u8>, V)>) -> bool {
    forall|i: int, j: int|
        0 <= i < j < entries.len() ==> components((#[trigger] entries[i]).0@) != components(
            (#[trigger] entries[j]).0@,
        )
}

spec fn map_of<V>(entries: Seq<(Vec<u8>, V)>) -> Map<Seq<Component>, V>
    decreases entries.len(),
{
    if entries.len() == 0 {
        Map::empty()
    } else {
        map_of(entries.drop_last()).insert(components(entries.last().0@), entries.last().1)
    }
}

spec fn has_key<V>(entries: Seq<(Vec<u8>, V)>, k: Seq<Component>) -> bool {
    exists|i: int| 0 <= i < entries.len() && components((#[trigger] entries[i]).0@) == k
}

proof fn lemma_map_of<V>(entries: Seq<(Vec<u8>, V)>)
    requires
        distinct(entries),
    ensures
        forall|k: Seq<Component>| #[trigger]
            map_of(entries).dom().contains(k) <==> has_key(entries, k),
        forall|i: int|
            0 <= i < entries.len() ==> map_of(entries)[components((#[trigger] entries[i]).0@)]
                == entries[i].1,
    decreases entries.len(),
{
    if entries.len() > 0 {
        let front = entries.drop_last();
        let last = entries.last();
        assert(distinct(front)) by {
            assert forall|i: int, j: int| 0 <= i < j < front.len() implies components(
                (#[trigger] front[i]).0@,
            ) != components((#[trigger] front[j]).0@) by {
                assert(front[i] == entries[i] && front[j] == entries[j]);
            }
        }
        lemma_map_of(front);
        assert forall|k: Seq<Component>| #[trigger] map_of(entries).dom().contains(k)
            <==> has_key(entries, k) by {
            if has_key(entries, k) {
                let i = choose|i: int|
                    0 <= i < entries.len() && components((#[trigger] entries[i]).0@) == k;
                if i < front.len() {
                    assert(components(front[i].0@) == k);
                    assert(has_key(front, k));
                    assert(map_of(front).dom().contains(k));
                }
            }
            if map_of(entries).dom().contains(k) {
                if map_of(front).dom().contains(k) {
                    assert(has_key(front, k));
                    let i = choose|i: int|
                        0 <= i < front.len() && components((#[trigger] front[i]).0@) == k;
                    assert(components(entries[i].0@) == k);
                } else {
                    assert(components(entries[entries.len() - 1].0@) == k);
                }
            }
        }
        assert forall|i: int| 0 <= i < entries.len() implies map_of(
            entries,
        )[components((#[trigger] entries[i]).0@)] == entries[i].1 by {
            if i < front.len() {
                assert(front[i] == entries[i]);
                assert(components(entries[i].0@) != components(
                    entries[entries.len() - 1].0@,
                ));
            }
        }
    }
}

proof fn lemma_map_len<V>(entries: Seq<(Vec<u8>, V)>)
    requires
        distinct(entries),
    ensures
        map_of(entries).dom().finite(),
        map_of(entries).dom().len() == entries.len(),
    decreases entries.len(),
{
    if entries.len() > 0 {
        let front = entries.drop_last();
        let key = components(entries.last().0@);
        assert(distinct(front)) by {
            assert forall|i: int, j: int| 0 <= i < j < front.len() implies components(
                (#[trigger] front[i]).0@,
            ) != components((#[trigger] front[j]).0@) by {
                assert(front[i] == entries[i] && front[j] == entries[j]);
            }
        }
        lemma_map_len(front);
        lemma_map_of(front);
        assert(!has_key(front, key)) by {
            assert forall|i: int| 0 <= i < front.len() implies components(
                (#[trigger] front[i]).0@,
            ) != key by {
                assert(front[i] == entries[i]);
                assert(components(entries[i].0@) != components(
                    entries[entries.len() - 1].0@,
                ));
            }
        }
        assert(map_of(entries).dom() =~= map_of(front).dom().insert(key));
    } else {
        assert(map_of(entries).dom() =~= Set::empty());
    }
}

proof fn lemma_same_map<V>(a: Seq<(Vec<u8>, V)>, m: Map<Seq<Component>, V>)
    requires
        distinct(a),
        forall|k: Seq<Component>| #[trigger] m.dom().contains(k) <==> has_key(a, k),
        forall|i: int|
            0 <= i < a.len() ==> m[components((#[trigger] a[i]).0@)] == a[i].1,
    ensures
        map_of(a) == m,
{
    lemma_map_of(a);
    assert(map_of(a).dom() =~= m.dom()) by {
        assert forall|k: Seq<Component>| map_of(a).dom().contains(k) == m.dom().contains(k) by {
            assert(m.dom().contains(k) <==> has_key(a, k));
        }
    }
    assert forall|k: Seq<Component>| map_of(a).dom().contains(k) implies map_of(a)[k] == m[k] by {
        assert(has_key(a, k));
        let i = choose|i: int| 0 <= i < a.len() && components((#[trigger] a[i]).0@) == k;
        assert(m[components(a[i].0@)] == a[i].1);
    }
    assert(map_of(a) =~= m);
}

proof fn lemma_replaced<V>(before: Seq<(Vec<u8>, V)>, at: int, value: V)
    requires
        sorted(before),
        0 <= at < before.len(),
    ensures
        ({
            let now = before.update(at, (before[at].0, value));
            &&& sorted(now)
            &&& map_of(now) == map_of(before).insert(components(before[at].0@), value)
        }),
{
    let now = before.update(at, (before[at].0, value));
    let key = components(before[at].0@);
    let m = map_of(before).insert(key, value);
    lemma_sorted_is_distinct(before);
    lemma_map_of(before);
    assert forall|a: int| 0 <= a < now.len() implies (#[trigger] now[a]).0 == before[a].0 by {}
    assert(sorted(now)) by {
        assert forall|a: int, b: int| 0 <= a < b < now.len() implies path_order(
            (#[trigger] now[a]).0@,
            (#[trigger] now[b]).0@,
        ) == Order::Less by {
            assert(path_order(before[a].0@, before[b].0@) == Order::Less);
        }
    }
    lemma_sorted_is_distinct(now);
    assert forall|k: Seq<Component>| #[trigger] m.dom().contains(k) <==> has_key(now, k) by {
        assert(map_of(before).dom().contains(k) <==> has_key(before, k));
        if has_key(before, k) {
            let a = choose|a: int|
                0 <= a < before.len() && components((#[trigger] before[a]).0@) == k;
            assert(components(now[a].0@) == k);
        }
        if has_key(now, k) {
            let a = choose|a: int| 0 <= a < now.len() && components((#[trigger] now[a]).0@) == k;
            assert(components(before[a].0@) == k);
        }
        if k == key {
            assert(components(now[at].0@) == k);
        }
    }
    assert forall|a: int| 0 <= a < now.len() implies m[components((#[trigger] now[a]).0@)]
        == now[a].1 by {
        if a != at {
            assert(now[a] == before[a]);
            if a < at {
                assert(components(before[a].0@) != components(before[at].0@));
            } else {
                assert(components(before[at].0@) != components(before[a].0@));
            }
        }
    }
    lemma_same_map(now, m);
}

proof fn lemma_stays_sorted<V>(before: Seq<(Vec<u8>, V)>, at: int, path: Vec<u8>, value: V)
    requires
        sorted(before),
        is_place(before, path@, at),
        at < before.len() ==> path_order(before[at].0@, path@) == Order::Greater,
    ensures
        sorted(before.insert(at, (path, value))),
{
    let now = before.insert(at, (path, value));
    assert forall|a: int, b: int| 0 <= a < b < now.len() implies path_order(
        (#[trigger] now[a]).0@,
        (#[trigger] now[b]).0@,
    ) == Order::Less by {
        if a == at {
            assert(now[b] == before[b - 1]);
            lemma_components_order_flip(components(path@), components(before[b - 1].0@));
        } else if b == at {
            assert(now[a] == before[a]);
        } else {
            let c = if a < at {
                a
            } else {
                a - 1
            };
            let d = if b < at {
                b
            } else {
                b - 1
            };
            assert(now[a] == before[c] && now[b] == before[d]);
        }
    }
}

proof fn lemma_inserted<V>(before: Seq<(Vec<u8>, V)>, at: int, path: Vec<u8>, value: V)
    requires
        sorted(before),
        is_place(before, path@, at),
        at < before.len() ==> path_order(before[at].0@, path@) == Order::Greater,
        !has_key(before, components(path@)),
    ensures
        ({
            let now = before.insert(at, (path, value));
            &&& sorted(now)
            &&& map_of(now) == map_of(before).insert(components(path@), value)
        }),
{
    let now = before.insert(at, (path, value));
    let key = components(path@);
    let m = map_of(before).insert(key, value);
    lemma_sorted_is_distinct(before);
    lemma_map_of(before);
    lemma_stays_sorted(before, at, path, value);
    lemma_sorted_is_distinct(now);
    assert forall|k: Seq<Component>| #[trigger] m.dom().contains(k) <==> has_key(now, k) by {
        assert(map_of(before).dom().contains(k) <==> has_key(before, k));
        if has_key(before, k) {
            let a = choose|a: int|
                0 <= a < before.len() && components((#[trigger] before[a]).0@) == k;
            let b = if a < at {
                a
            } else {
                a + 1
            };
            assert(now[b] == before[a]);
        }
        if has_key(now, k) {
            let a = choose|a: int| 0 <= a < now.len() && components((#[trigger] now[a]).0@) == k;
            if a != at {
                let b = if a < at {
                    a
                } else {
                    a - 1
                };
                assert(now[a] == before[b]);
                assert(has_key(before, k));
            }
        }
        if k == key {
            assert(components(now[at].0@) == k);
        }
    }
    assert forall|a: int| 0 <= a < now.len() implies m[components((#[trigger] now[a]).0@)]
        == now[a].1 by {
        if a != at {
            let b = if a < at {
                a
            } else {
                a - 1
            };
            assert(now[a] == before[b]);
            assert(has_key(before, components(before[b].0@)));
        }
    }
    lemma_same_map(now, m);
}

/// Whether a value is kept by some path.
pub open spec fn holds_value<V>(m: Map<Seq<Component>, V>, v: V) -> bool {
    exists|k: Seq<Component>| #[trigger] m.dom().contains(k) && m[k] == v
}

/// Whether these are the values of a map, one for each key, in the order of `keys`.
pub open spec fn lists_values<V>(
    m: Map<Seq<Component>, V>,
    keys: Seq<Seq<Component>>,
    values: Seq<V>,
) -> bool {
    &&& keys.no_duplicates()
    &&& keys.to_set() == m.dom()
    &&& values == keys.map_values(|k: Seq<Component>| m[k])
}

impl<V> View for PathMap<V> {
    type V = Map<Seq<Component>, V>;

    closed spec fn view(&self) -> Map<Seq<Component>, V> {
        map_of(self.entries@)
    }
}

impl<V> PathMap<V> {
    #[verifier::type_invariant]
    closed spec fn inv(self) -> bool {
        sorted(self.entries@)
    }

    pub fn new() -> (r: PathMap<V>)
        ensures
            r@ == Map::<Seq<Component>, V>::empty(),
    {
        PathMap { entries: Vec::new() }
    }

    /// Where the entry of a path stands, or would stand, and whether there is one.
    fn find(&self, path: &[u8]) -> (r: (usize, bool))
        ensures
            is_place(self.entries@, path@, r.0 as int),
            r.1 ==> r.0 < self.entries@.len() && components(self.entries@[r.0 as int].0@)
                == components(path@),
            !r.1 ==> !has_key(self.entries@, components(path@)),
            !r.1 && r.0 < self.entries@.len() ==> path_order(
                self.entries@[r.0 as int].0@,
                path@,
            ) == Order::Greater,
    {
        proof {
            use_type_invariant(self);
        }
        let ghost all = self.entries@;
        let mut lo: usize = 0;
        let mut hi: usize = self.entries.len();
        while lo < hi
            invariant
                all == self.entries@,
                sorted(all),
                lo <= hi <= all.len(),
                forall|k: int|
                    0 <= k < lo ==> path_order((#[trigger] all[k]).0@, path@) == Order::Less,
                forall|k: int|
                    hi <= k < all.len() ==> path_order((#[trigger] all[k]).0@, path@)
                        == Order::Greater,
            decreases hi - lo,
        {
            let mid: usize = lo + (hi - lo) / 2;
            let ghost at = mid as int;
            let ghost key = components(path@);
            let o = compare_paths(self.entries[mid].0.as_slice(), path);
            proof {
                assert forall|k: int| 0 <= k < at && o != Order::Greater implies path_order(
                    (#[trigger] all[k]).0@,
                    path@,
                ) == Order::Less by {
                    assert(path_order(all[k].0@, all[at].0@) == Order::Less);
                    lemma_components_order_chains(
                        components(all[k].0@),
                        components(all[at].0@),
                        key,
                    );
                }
                assert forall|k: int| at < k < all.len() && o != Order::Less implies path_order(
                    (#[trigger] all[k]).0@,
                    path@,
                ) == Order::Greater by {
                    assert(path_order(all[at].0@, all[k].0@) == Order::Less);
                    lemma_components_order_flip(components(all[at].0@), key);
                    lemma_components_order_chains(
                        key,
                        components(all[at].0@),
                        components(all[k].0@),
                    );
                    lemma_components_order_flip(key, components(all[k].0@));
                }
                lemma_components_order_flip(components(all[at].0@), key);
            }
            match o {
                Order::Less => {
                    lo = mid + 1;
                },
                Order::Equal => {
                    return (mid, true);
                },
                Order::Greater => {
                    hi = mid;
                },
            }
        }
        proof {
            assert forall|k: int| 0 <= k < all.len() implies components(
                (#[trigger] all[k]).0@,
            ) != components(path@) by {
                lemma_components_order_flip(components(all[k].0@), components(path@));
            }
        }
        (lo, false)
    }

    /// Whether a value is kept by a path.
    pub fn contains(&self, path: &[u8]) -> (r: bool)
        ensures
            r == self@.dom().contains(components(path@)),
    {
        self.get(path).is_some()
    }

    /// The value that is kept by a path.
    pub fn get(&self, path: &[u8]) -> (r: Option<&V>)
        ensures
            match r {
                Some(v) => self@.dom().contains(components(path@)) && self@[components(path@)]
                    == *v,
                None => !self@.dom().contains(components(path@)),
            },
    {
        proof {
            use_type_invariant(self);
            lemma_sorted_is_distinct(self.entries@);
            lemma_map_of(self.entries@);
        }
        let (at, found) = self.find(path);
        if found {
            assert(has_key(self.entries@, components(path@)));
            Some(&self.entries[at].1)
        } else {
            None
        }
    }

    /// Keeps a value by a path, in place of what was kept by it.
    pub fn insert(&mut self, path: Vec<u8>, value: V)
        ensures
            final(self)@ == old(self)@.insert(components(path@), value),
    {
        proof {
            use_type_invariant(&*self);
        }
        let (i, found) = self.find(path.as_slice());
        let ghost before = self.entries@;
        let ghost at = i as int;
        let mut entries: Vec<(Vec<u8>, V)> = Vec::new();
        std::mem::swap(&mut entries, &mut self.entries);
        if found {
            let old_entry = entries.remove(i);
            entries.insert(i, (old_entry.0, value));
            proof {
                assert(entries@ =~= before.update(at, (before[at].0, value)));
                lemma_replaced(before, at, value);
            }
        } else {
            entries.insert(i, (path, value));
            proof {
                assert(entries@ =~= before.insert(at, (path, value)));
                lemma_inserted(before, at, path, value);
            }
        }
        self.entries = entries;
    }

    /// Takes out the value that is kept by a path.
    pub fn remove(&mut self, path: &[u8]) -> (r: Option<V>)
        ensures
            r == (if old(self)@.dom().contains(components(path@)) {
                Some(old(self)@[components(path@)])
            } else {
                None
            }),
            final(self)@ == old(self)@.remove(components(path@)),
    {
        proof {
            use_type_invariant(&*self);
            lemma_sorted_is_distinct(self.entries@);
            lemma_map_of(self.entries@);
        }
        let ghost before = self.entries@;
        let ghost key = components(path@);
        match self.find(path) {
            (_, false) => {
                proof {
                    assert(!map_of(before).dom().contains(key));
                    assert(map_of(before).remove(key) =~= map_of(before));
                }
                None
            },
            (i, true) => {
                let mut entries: Vec<(Vec<u8>, V)> = Vec::new();
                std::mem::swap(&mut entries, &mut self.entries);
                let taken = entries.remove(i);
                proof {
                    let now = entries@;
                    let m = map_of(before).remove(key);
                    let at = i as int;
                    assert(has_key(before, key));
                    assert forall|a: int| 0 <= a < now.len() implies #[trigger] now[a] == before[if a
                        < at {
                        a
                    } else {
                        a + 1
                    }] by {}
                    assert(sorted(now)) by {
                        assert forall|a: int, b: int| 0 <= a < b < now.len() implies path_order(
                            (#[trigger] now[a]).0@,
                            (#[trigger] now[b]).0@,
                        ) == Order::Less by {
                            let c = if a < at {
                                a
                            } else {
                                a + 1
                            };
                            let d = if b < at {
                                b
                            } else {
                                b + 1
                            };
                            assert(now[a] == before[c] && now[b] == before[d]);
                        }
                    }
                    lemma_sorted_is_distinct(now);
                    assert forall|k: Seq<Component>| #[trigger] m.dom().contains(k) <==> has_key(
                        now,
                        k,
                    ) by {
                        assert(map_of(before).dom().contains(k) <==> has_key(before, k));
                        if has_key(before, k) && k != key {
                            let a = choose|a: int|
                                0 <= a < before.len() && components((#[trigger] before[a]).0@) == k;
                            if a < at {
                                assert(now[a] == before[a]);
                            } else {
                                assert(now[a - 1] == before[a]);
                            }
                        }
                        if has_key(now, k) {
                            let a = choose|a: int|
                                0 <= a < now.len() && components((#[trigger] now[a]).0@) == k;
                            let b = if a < at {
                                a
                            } else {
                                a + 1
                            };
                            assert(now[a] == before[b]);
                            assert(components(before[b].0@) == k);
                            assert(components(before[at].0@) == key);
                        }
                    }
                    assert forall|a: int| 0 <= a < now.len() implies m[components(
                        (#[trigger] now[a]).0@,
                    )] == now[a].1 by {
                        let b = if a < at {
                            a
                        } else {
                            a + 1
                        };
                        assert(now[a] == before[b]);
                        assert(components(before[at].0@) == key);
                        if b < at {
                            assert(components(before[b].0@) != components(before[at].0@));
                        } else {
                            assert(components(before[at].0@) != components(before[b].0@));
                        }
                    }
                    lemma_same_map(now, m);
                }
                self.entries = entries;
                Some(taken.1)
            },
        }
    }

    /// All values, each once for every path that it is kept by, in no particular
    /// order.
    pub fn into_values(self) -> (r: Vec<V>)
        ensures
            exists|keys: Seq<Seq<Component>>| #[trigger] lists_values(self@, keys, r@),
            r@.len() == self@.dom().len(),
            forall|k: Seq<Component>| #[trigger]
                self@.dom().contains(k) ==> r@.contains(self@[k]),
            forall|j: int| 0 <= j < r@.len() ==> holds_value(self@, #[trigger] r@[j]),
    {
        proof {
            use_type_invariant(&self);
            lemma_sorted_is_distinct(self.entries@);
            lemma_map_of(self.entries@);
            lemma_map_len(self.entries@);
        }
        let ghost all = self.entries@;
        let ghost map = self@;
        let mut entries = self.entries;
        let mut out: Vec<V> = Vec::new();
        while entries.len() > 0
            invariant
                entries@.len() + out@.len() == all.len(),
                entries@ == all.take(entries@.len() as int),
                forall|j: int|
                    0 <= j < out@.len() ==> #[trigger] out@[j] == all[all.len() - 1 - j].1,
            decreases entries@.len(),
        {
            let ghost before = entries@;
            if let Some(e) = entries.pop() {
                assert(e == all[before.len() - 1]);
                assert(entries@ =~= all.take(entries@.len() as int));
                out.push(e.1);
            }
        }
        proof {
            assert forall|k: Seq<Component>| #[trigger] map.dom().contains(k) implies out@.contains(
                map[k],
            ) by {
                assert(has_key(all, k));
                let i = choose|i: int|
                    0 <= i < all.len() && components((#[trigger] all[i]).0@) == k;
                assert(out@[all.len() - 1 - i] == map[k]);
            }
            assert forall|j: int| 0 <= j < out@.len() implies holds_value(
                map,
                #[trigger] out@[j],
            ) by {
                let i = all.len() - 1 - j;
                let k = components(all[i].0@);
                assert(has_key(all, k));
                assert(map.dom().contains(k) && map[k] == out@[j]);
            }
            let n = all.len();
            let keys = Seq::new(n, |j: int| components(all[n - 1 - j].0@));
            assert(keys.no_duplicates()) by {
                assert forall|i: int, j: int| 0 <= i < j < n implies keys[i] != keys[j] by {
                    assert(components(all[n - 1 - j].0@) != components(all[n - 1 - i].0@));
                }
            }
            assert forall|k: Seq<Component>| keys.to_set().contains(k) == map.dom().contains(k) by {
                if map.dom().contains(k) {
                    assert(has_key(all, k));
                    let i = choose|i: int|
                        0 <= i < n && components((#[trigger] all[i]).0@) == k;
                    assert(keys[n - 1 - i] == k);
                }
                if keys.contains(k) {
                    let j = choose|j: int| 0 <= j < keys.len() && keys[j] == k;
                    assert(components(all[n - 1 - j].0@) == k);
                    assert(has_key(all, k));
                }
            }
            assert(keys.to_set() =~= map.dom());
            assert(out@ =~= keys.map_values(|k: Seq<Component>| map[k]));
            assert(lists_values(map, keys, out@));
        }
        out
    }
}

} // verus!
