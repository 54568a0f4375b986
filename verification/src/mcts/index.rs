//! An open-addressed index from Zobrist key to node slot.
//!
//! The index stores the key beside the slot, so probing never reads a node. Zobrist keys are
//! already uniform, so they are reduced to a home position rather than hashed again.
//!
//! Deleting repairs the probe run instead of marking it. Linear probing puts a key at the
//! first free position at or after its home, so emptying a position can strand a later key
//! that had probed past it. Rather than leave a marker saying "keep walking", the delete
//! pulls any such key back into the hole. Nothing is left behind, so probe length depends
//! only on how many entries are live, and the index never needs rebuilding.
use vstd::prelude::*;

use vstd::arithmetic::power2::pow2;

verus! {

/// A position holding no node.
pub const EMPTY: u32 = u32::MAX;

/// One position: the key and the node it names. Holding the key here is what keeps probing
/// out of the node array, and it is also what lets a delete work out where a displaced entry
/// wanted to live.
#[derive(Clone, Copy)]
pub struct Entry {
    pub key: u64,
    pub slot: u32,
}

impl Entry {
    /// Does the entry name a node?
    pub open spec fn full(self) -> bool {
        self.slot != EMPTY
    }
}

/// The position where probing for a key starts.
pub open spec fn home(key: u64, n: int) -> int {
    key as int % n
}

/// How many steps forward, around a table of `n` positions, lead from `a` to `b`.
pub open spec fn ahead(a: int, b: int, n: int) -> int {
    if b >= a {
        b - a
    } else {
        b - a + n
    }
}

/// Probing for the key at position `q` gets there: no position on the way is empty.
pub open spec fn reachable(t: Seq<Entry>, q: int) -> bool {
    forall|p: int|
        0 <= p < t.len() && ahead(home(t[q].key, t.len() as int), p, t.len() as int) < ahead(
            home(t[q].key, t.len() as int),
            q,
            t.len() as int,
        ) ==> (#[trigger] t[p]).full()
}

/// Does position `q` hold `key`?
pub open spec fn holds_key(t: Seq<Entry>, q: int, key: u64) -> bool {
    0 <= q < t.len() && t[q].full() && t[q].key == key
}

/// The table as a map from key to slot.
pub open spec fn table_map(t: Seq<Entry>) -> Map<u64, u32> {
    Map::new(
        |k: u64| exists|q: int| #[trigger] holds_key(t, q, k),
        |k: u64| t[choose|q: int| #[trigger] holds_key(t, q, k)].slot,
    )
}

/// No key is held twice.
pub open spec fn keys_distinct(t: Seq<Entry>) -> bool {
    forall|a: int, b: int|
        0 <= a < t.len() && 0 <= b < t.len() && (#[trigger] t[a]).full() && (#[trigger] t[b]).full()
            && t[a].key == t[b].key ==> a == b
}

/// Every key held is found by probing.
pub open spec fn all_reachable(t: Seq<Entry>) -> bool {
    forall|q: int| 0 <= q < t.len() && (#[trigger] t[q]).full() ==> reachable(t, q)
}

pub struct Index {
    pub entries: Vec<Entry>,
}

/// The slot of a key held at a position.
proof fn lemma_lookup(t: Seq<Entry>, q: int)
    requires
        keys_distinct(t),
        0 <= q < t.len(),
        t[q].full(),
    ensures
        table_map(t).contains_key(t[q].key),
        table_map(t)[t[q].key] == t[q].slot,
{
    let k = t[q].key;
    assert(holds_key(t, q, k));
    let r = choose|r: int| #[trigger] holds_key(t, r, k);
    assert(holds_key(t, r, k));
    assert(t[r].full() && t[q].full());
}

/// The keys of a table are finitely many.
pub proof fn lemma_finite(t: Seq<Entry>)
    ensures
        table_map(t).dom().finite(),
        table_map(t).len() <= t.len(),
{
    let ks = Seq::new(t.len(), |q: int| t[q].key);
    ks.lemma_cardinality_of_set();
    assert forall|k: u64| #[trigger] table_map(t).dom().contains(k) implies ks.to_set().contains(
        k,
    ) by {
        let q = choose|q: int| #[trigger] holds_key(t, q, k);
        assert(holds_key(t, q, k));
        assert(ks[q] == k);
    }
    assert(table_map(t).dom().subset_of(ks.to_set()));
    vstd::set_lib::lemma_len_subset(table_map(t).dom(), ks.to_set());
}

/// A table with fewer keys than positions has an empty position.
proof fn lemma_some_empty(t: Seq<Entry>) -> (z: int)
    requires
        keys_distinct(t),
        table_map(t).len() < t.len(),
    ensures
        0 <= z < t.len(),
        !t[z].full(),
{
    if forall|q: int| 0 <= q < t.len() ==> (#[trigger] t[q]).full() {
        let ks = Seq::new(t.len(), |q: int| t[q].key);
        assert forall|a: int, b: int| 0 <= a < ks.len() && 0 <= b < ks.len() && a != b implies ks[a]
            != ks[b] by {
            assert(t[a].full() && t[b].full());
        }
        ks.unique_seq_to_set();
        lemma_finite(t);
        assert forall|k: u64| #[trigger] ks.to_set().contains(k) implies table_map(
            t,
        ).dom().contains(k) by {
            let q = ks.index_of(k);
            assert(ks[q] == k);
            assert(t[q].full());
            assert(holds_key(t, q, k));
        }
        assert(ks.to_set().subset_of(table_map(t).dom()));
        vstd::set_lib::lemma_len_subset(ks.to_set(), table_map(t).dom());
        0
    } else {
        choose|q: int| 0 <= q < t.len() && !(#[trigger] t[q]).full()
    }
}

impl Index {
    /// The keys held, with the slots they name.
    pub open spec fn view(&self) -> Map<u64, u32> {
        table_map(self.entries@)
    }

    pub open spec fn wf(&self) -> bool {
        &&& keys_distinct(self.entries@)
        &&& all_reachable(self.entries@)
        &&& self@.len() < self.entries@.len()
    }

    /// An empty index with room for `capacity` keys: a power of two positions, at least twice
    /// as many, so it stays under half full.
    pub fn new(capacity: usize) -> (r: Self)
        requires
            4 * capacity <= usize::MAX,
        ensures
            r.wf(),
            r@ == Map::<u64, u32>::empty(),
            r.entries@.len() >= 2 * capacity,
            r.entries@.len() >= 2,
            exists|e: nat| r.entries@.len() == #[trigger] pow2(e),
    {
        let want: usize = if capacity == 0 {
            2
        } else {
            capacity * 2
        };
        let ghost mut e: nat = 0;
        proof {
            vstd::arithmetic::power2::lemma2_to64();
        }
        let mut n: usize = 1;
        while n < want
            invariant
                1 <= n,
                n == pow2(e),
                2 * want <= usize::MAX,
            decreases
                    (if n < want {
                        want - n
                    } else {
                        0
                    }),
        {
            proof {
                vstd::arithmetic::power2::lemma_pow2_unfold(e + 1);
                e = e + 1;
            }
            n = n * 2;
        }
        let entries: Vec<Entry> = vec![Entry { key: 0, slot: EMPTY }; n];
        let r = Index { entries };
        proof {
            lemma_all_empty(r.entries@);
        }
        r
    }

    /// Drop every key.
    pub fn clear(&mut self)
        requires
            old(self).wf(),
        ensures
            final(self).wf(),
            final(self)@ == Map::<u64, u32>::empty(),
            final(self).entries@.len() == old(self).entries@.len(),
    {
        let n: usize = self.entries.len();
        self.entries = vec![Entry { key: 0, slot: EMPTY }; n];
        proof {
            lemma_all_empty(self.entries@);
        }
    }

    fn home_of(&self, key: u64) -> (b: usize)
        requires
            self.entries@.len() > 0,
        ensures
            b == home(key, self.entries@.len() as int),
            b < self.entries@.len(),
    {
        let n: usize = self.entries.len();
        (key % (n as u64)) as usize
    }

    /// The position after `b`, around the end.
    fn next(&self, b: usize) -> (c: usize)
        requires
            b < self.entries@.len(),
        ensures
            c == (if b + 1 == self.entries@.len() {
                0
            } else {
                b + 1
            }),
    {
        let n: usize = self.entries.len();
        if b + 1 == n {
            0
        } else {
            b + 1
        }
    }

    /// The slot holding `key`, or `None`.
    pub fn get(&self, key: u64) -> (r: Option<u32>)
        requires
            self.wf(),
        ensures
            r == (if self@.contains_key(key) {
                Some(self@[key])
            } else {
                None
            }),
            r matches Some(s) ==> s != EMPTY,
    {
        let ghost t = self.entries@;
        let ghost n = t.len() as int;
        let ghost h = home(key, n);
        let ghost z = lemma_some_empty(t);
        let mut b: usize = self.home_of(key);
        loop
            invariant
                self.wf(),
                t == self.entries@,
                n == t.len(),
                h == home(key, n),
                0 <= h < n,
                0 <= z < n,
                !t[z].full(),
                b < n,
                forall|p: int|
                    0 <= p < n && ahead(h, p, n) < ahead(h, b as int, n) ==> (
                    #[trigger] t[p]).full() && t[p].key != key,
            decreases ahead(b as int, z, n),
        {
            let e: Entry = self.entries[b];
            if e.slot == EMPTY {
                proof {
                    if self@.contains_key(key) {
                        let q = choose|q: int| #[trigger] holds_key(t, q, key);
                        assert(holds_key(t, q, key));
                        assert(reachable(t, q));
                        assert(!t[b as int].full());
                    }
                }
                return None;
            }
            if e.key == key {
                proof {
                    lemma_lookup(t, b as int);
                }
                return Some(e.slot);
            }
            b = self.next(b);
        }
    }

    /// Add a key that is not held.
    pub fn insert(&mut self, key: u64, slot: u32)
        requires
            old(self).wf(),
            !old(self)@.contains_key(key),
            old(self)@.len() + 1 < old(self).entries@.len(),
            slot != EMPTY,
        ensures
            final(self).wf(),
            final(self)@ == old(self)@.insert(key, slot),
            final(self).entries@.len() == old(self).entries@.len(),
    {
        let ghost t = self.entries@;
        let ghost n = t.len() as int;
        let ghost h = home(key, n);
        let ghost z = lemma_some_empty(t);
        let mut b: usize = self.home_of(key);
        while self.entries[b].slot != EMPTY
            invariant
                self.wf(),
                t == self.entries@,
                n == t.len(),
                h == home(key, n),
                0 <= h < n,
                0 <= z < n,
                !t[z].full(),
                b < n,
                forall|p: int|
                    0 <= p < n && ahead(h, p, n) < ahead(h, b as int, n) ==> (
                    #[trigger] t[p]).full(),
            decreases ahead(b as int, z, n),
        {
            b = self.next(b);
        }
        self.entries.set(b, Entry { key, slot });
        proof {
            lemma_inserted(t, key, slot, b as int);
        }
    }

    /// Take `key` out, if it names `slot`, and close the gap behind it. Returns whether it
    /// did.
    ///
    /// Walking forward from the hole, an entry can be pulled back into it exactly when it is
    /// already displaced at least as far as the hole is behind it, that is, when its home is
    /// at or before the hole in probe order. Anything closer to home than that is holding its
    /// own run together and must stay. Each move makes the vacated position the new hole, and
    /// the scan ends at the first empty position, which nothing can have probed past.
    pub fn remove(&mut self, key: u64, slot: u32) -> (r: bool)
        requires
            old(self).wf(),
            slot != EMPTY,
        ensures
            final(self).wf(),
            final(self).entries@.len() == old(self).entries@.len(),
            r == (old(self)@.contains_key(key) && old(self)@[key] == slot),
            r ==> final(self)@ == old(self)@.remove(key),
            !r ==> *final(self) == *old(self),
    {
        let ghost t = self.entries@;
        let ghost n = t.len() as int;
        let ghost h = home(key, n);
        let ghost z = lemma_some_empty(t);
        let mut hole: usize = self.home_of(key);
        loop
            invariant_except_break
                self.wf(),
                *self == *old(self),
                t == self.entries@,
                t == old(self).entries@,
                n == t.len(),
                h == home(key, n),
                0 <= h < n,
                0 <= z < n,
                !t[z].full(),
                hole < n,
                slot != EMPTY,
                forall|p: int|
                    0 <= p < n && ahead(h, p, n) < ahead(h, hole as int, n) ==> (
                    #[trigger] t[p]).full() && !(t[p].key == key && t[p].slot == slot),
            ensures
                hole < n,
                self.wf(),
                self.entries@ == t,
                t[hole as int].key == key,
                t[hole as int].slot == slot,
            decreases ahead(hole as int, z, n),
        {
            let e: Entry = self.entries[hole];
            if e.slot == EMPTY {
                proof {
                    if self@.contains_key(key) {
                        let q = choose|q: int| #[trigger] holds_key(t, q, key);
                        assert(holds_key(t, q, key));
                        assert(reachable(t, q));
                        lemma_lookup(t, q);
                        assert(!t[hole as int].full());
                    }
                }
                return false;
            }
            if e.slot == slot && e.key == key {
                break ;
            }
            hole = self.next(hole);
        }
        proof {
            lemma_lookup(t, hole as int);
            lemma_gap(t, hole as int);
        }
        let mut j: usize = hole;
        loop
            invariant_except_break
                n == t.len(),
                self.entries@.len() == n,
                hole < n,
                j < n,
                0 <= z < n,
                !self.entries@[z].full(),
                z != hole,
                closing(t, self.entries@, hole as int, j as int, key),
            ensures
                hole < n,
                self.entries@.len() == n,
                closing(t, self.entries@, hole as int, j as int, key),
                ({
                    let k = if j + 1 == n {
                        0
                    } else {
                        j + 1
                    };
                    !self.entries@[k].full()
                }),
            decreases ahead(j as int, z, n),
        {
            let k: usize = self.next(j);
            let e: Entry = self.entries[k];
            if e.slot == EMPTY {
                break ;
            }
            let at: usize = self.home_of(e.key);
            let n_exec: usize = self.entries.len();
            let from_home: usize = if k >= at {
                k - at
            } else {
                k + (n_exec - at)
            };
            let from_hole: usize = if k >= hole {
                k - hole
            } else {
                k + (n_exec - hole)
            };
            let ghost t1 = self.entries@;
            if from_home >= from_hole {
                proof {
                    lemma_pull(t, t1, hole as int, j as int, k as int, key);
                }
                self.entries.set(hole, e);
                hole = k;
            } else {
                proof {
                    lemma_keep(t, t1, hole as int, j as int, k as int, key);
                }
            }
            j = k;
        }
        let ghost t2 = self.entries@;
        self.entries.set(hole, Entry { key: 0, slot: EMPTY });
        proof {
            lemma_closed(t, t2, hole as int, j as int, key);
        }
        true
    }
}

/// A table without entries.
proof fn lemma_all_empty(t: Seq<Entry>)
    requires
        t.len() > 0,
        forall|q: int| 0 <= q < t.len() ==> !(#[trigger] t[q]).full(),
    ensures
        table_map(t) == Map::<u64, u32>::empty(),
        keys_distinct(t),
        all_reachable(t),
        table_map(t).len() < t.len(),
{
    assert forall|k: u64| !#[trigger] table_map(t).dom().contains(k) by {
        if table_map(t).dom().contains(k) {
            let q = choose|q: int| #[trigger] holds_key(t, q, k);
            assert(holds_key(t, q, k));
        }
    }
    assert(table_map(t) =~= Map::<u64, u32>::empty());
}

/// Filling the first empty position from a new key's home keeps the table in order.
proof fn lemma_inserted(t: Seq<Entry>, key: u64, slot: u32, b: int)
    requires
        keys_distinct(t),
        all_reachable(t),
        !table_map(t).contains_key(key),
        table_map(t).len() + 1 < t.len(),
        slot != EMPTY,
        0 <= b < t.len(),
        !t[b].full(),
        forall|p: int|
            0 <= p < t.len() && ahead(home(key, t.len() as int), p, t.len() as int) < ahead(
                home(key, t.len() as int),
                b,
                t.len() as int,
            ) ==> (#[trigger] t[p]).full(),
    ensures
        ({
            let u = t.update(b, Entry { key, slot });
            &&& keys_distinct(u)
            &&& all_reachable(u)
            &&& table_map(u) == table_map(t).insert(key, slot)
            &&& table_map(u).len() < u.len()
        }),
{
    let u = t.update(b, Entry { key, slot });
    assert forall|q: int| 0 <= q < t.len() && q != b && (#[trigger] t[q]).full() implies t[q].key
        != key by {
        lemma_lookup(t, q);
    }
    assert forall|x: int, y: int|
        0 <= x < u.len() && 0 <= y < u.len() && (#[trigger] u[x]).full() && (#[trigger] u[y]).full()
            && u[x].key == u[y].key implies x == y by {
        if x != b {
            assert(t[x].full());
        }
        if y != b {
            assert(t[y].full());
        }
    }
    assert forall|q: int| 0 <= q < u.len() && (#[trigger] u[q]).full() implies reachable(u, q) by {
        if q != b {
            assert(t[q].full());
            assert(reachable(t, q));
        }
        assert forall|p: int|
            0 <= p < u.len() && ahead(home(u[q].key, u.len() as int), p, u.len() as int) < ahead(
                home(u[q].key, u.len() as int),
                q,
                u.len() as int,
            ) implies (#[trigger] u[p]).full() by {
            if p != b {
                assert(t[p].full());
            }
        }
    }
    assert forall|k: u64| #[trigger] table_map(u).contains_key(k) <==> table_map(t).insert(
        key,
        slot,
    ).contains_key(k) by {
        if table_map(u).contains_key(k) {
            let q = choose|q: int| #[trigger] holds_key(u, q, k);
            assert(holds_key(u, q, k));
            if q != b {
                assert(holds_key(t, q, k));
            }
        }
        if table_map(t).contains_key(k) {
            let q = choose|q: int| #[trigger] holds_key(t, q, k);
            assert(holds_key(t, q, k));
            assert(q != b);
            assert(holds_key(u, q, k));
        }
        if k == key {
            assert(holds_key(u, b, k));
        }
    }
    assert forall|k: u64| table_map(u).contains_key(k) implies #[trigger] table_map(u)[k]
        == table_map(t).insert(key, slot)[k] by {
        let q = choose|q: int| #[trigger] holds_key(u, q, k);
        assert(holds_key(u, q, k));
        assert(u[q].full());
        lemma_lookup(u, q);
        if q != b {
            assert(t[q].full());
            lemma_lookup(t, q);
        }
    }
    assert(table_map(u) =~= table_map(t).insert(key, slot));
    lemma_finite(t);
}

/// While a gap is being closed: apart from the hole, the table `t1` holds what `t` holds but
/// for `key`; every entry is found by probing, where only those beyond `j` may have to pass
/// the hole.
spec fn closing(t: Seq<Entry>, t1: Seq<Entry>, hole: int, j: int, key: u64) -> bool {
    let n = t.len() as int;
    &&& t1.len() == n
    &&& 0 <= hole < n
    &&& 0 <= j < n
    &&& t1[hole].full()
    &&& forall|a: int, b: int|
        0 <= a < n && 0 <= b < n && a != hole && b != hole && (#[trigger] t1[a]).full() && (
        #[trigger] t1[b]).full() && t1[a].key == t1[b].key ==> a == b
    &&& forall|q: int| 0 <= q < n && q != hole && (#[trigger] t1[q]).full() ==> t1[q].key != key
    &&& forall|q: int|
        0 <= q < n && q != hole && (#[trigger] t1[q]).full() ==> table_map(t).contains_key(
            t1[q].key,
        ) && table_map(t)[t1[q].key] == t1[q].slot
    &&& forall|k: u64| #[trigger]
        table_map(t).contains_key(k) && k != key ==> exists|q: int|
            q != hole && #[trigger] holds_key(t1, q, k)
    &&& forall|q: int|
        0 <= q < n && q != hole && (#[trigger] t1[q]).full() ==> reachable(t1, q)
    &&& forall|q: int|
        0 <= q < n && q != hole && (#[trigger] t1[q]).full() && ahead(
            home(t1[q].key, n),
            hole,
            n,
        ) < ahead(home(t1[q].key, n), q, n) ==> ahead(hole, q, n) > ahead(hole, j, n)
    &&& forall|p: int|
        0 <= p < n && ahead(hole, p, n) <= ahead(hole, j, n) ==> (#[trigger] t1[p]).full()
}

/// Where closing a gap starts.
proof fn lemma_gap(t: Seq<Entry>, hole: int)
    requires
        keys_distinct(t),
        all_reachable(t),
        0 <= hole < t.len(),
        t[hole].full(),
    ensures
        closing(t, t, hole, hole, t[hole].key),
{
    assert forall|q: int| 0 <= q < t.len() && q != hole && (#[trigger] t[q]).full() implies t[q].key
        != t[hole].key && table_map(t).contains_key(t[q].key) && table_map(t)[t[q].key]
        == t[q].slot by {
        lemma_lookup(t, q);
    }
    assert forall|k: u64| #[trigger]
        table_map(t).contains_key(k) && k != t[hole].key implies exists|q: int|
        q != hole && #[trigger] holds_key(t, q, k) by {
        let q = choose|q: int| #[trigger] holds_key(t, q, k);
        assert(holds_key(t, q, k));
        assert(q != hole);
    }
}

/// Pulling the entry at `k` back into the hole makes `k` the hole.
proof fn lemma_pull(t: Seq<Entry>, t1: Seq<Entry>, hole: int, j: int, k: int, key: u64)
    requires
        t.len() >= 2,
        closing(t, t1, hole, j, key),
        k == (if j + 1 == t.len() {
            0
        } else {
            j + 1
        }),
        t1[k].full(),
        k != hole,
        ahead(home(t1[k].key, t.len() as int), k, t.len() as int) >= ahead(
            hole,
            k,
            t.len() as int,
        ),
    ensures
        closing(t, t1.update(hole, t1[k]), k, k, key),
{
    let n = t.len() as int;
    let e = t1[k];
    let u = t1.update(hole, e);
    let h = home(e.key, n);
    assert(0 <= h < n) by {
        vstd::arithmetic::div_mod::lemma_mod_bound(e.key as int, n);
    }
    assert forall|a: int, b: int|
        0 <= a < n && 0 <= b < n && a != k && b != k && (#[trigger] u[a]).full() && (
        #[trigger] u[b]).full() && u[a].key == u[b].key implies a == b by {
        let x = if a == hole {
            k
        } else {
            a
        };
        let y = if b == hole {
            k
        } else {
            b
        };
        assert(t1[x] == u[a] && t1[y] == u[b]);
        assert(t1[x].full() && t1[y].full());
    }
    assert forall|q: int| 0 <= q < n && q != k && (#[trigger] u[q]).full() implies u[q].key != key
        && table_map(t).contains_key(u[q].key) && table_map(t)[u[q].key] == u[q].slot by {
        let x = if q == hole {
            k
        } else {
            q
        };
        assert(t1[x] == u[q]);
        assert(t1[x].full());
    }
    assert forall|m: u64| #[trigger]
        table_map(t).contains_key(m) && m != key implies exists|q: int|
        q != k && #[trigger] holds_key(u, q, m) by {
        let q = choose|q: int| q != hole && #[trigger] holds_key(t1, q, m);
        assert(holds_key(t1, q, m));
        if q == k {
            assert(holds_key(u, hole, m));
        } else {
            assert(holds_key(u, q, m));
        }
    }
    assert forall|q: int| 0 <= q < n && q != k && (#[trigger] u[q]).full() implies reachable(
        u,
        q,
    ) && (ahead(home(u[q].key, n), k, n) < ahead(home(u[q].key, n), q, n) ==> ahead(k, q, n)
        > ahead(k, k, n)) by {
        let x = if q == hole {
            k
        } else {
            q
        };
        assert(t1[x] == u[q]);
        assert(t1[x].full());
        assert(reachable(t1, x));
        assert forall|p: int|
            0 <= p < n && ahead(home(u[q].key, n), p, n) < ahead(
                home(u[q].key, n),
                q,
                n,
            ) implies (#[trigger] u[p]).full() by {
            if p != hole {
                assert(u[p] == t1[p]);
                if q == hole {
                    assert(ahead(h, p, n) < ahead(h, k, n));
                }
                assert(t1[p].full());
            }
        }
    }
}

/// An entry closer to home than the hole stays.
proof fn lemma_keep(t: Seq<Entry>, t1: Seq<Entry>, hole: int, j: int, k: int, key: u64)
    requires
        t.len() >= 2,
        closing(t, t1, hole, j, key),
        k == (if j + 1 == t.len() {
            0
        } else {
            j + 1
        }),
        t1[k].full(),
        k != hole,
        ahead(home(t1[k].key, t.len() as int), k, t.len() as int) < ahead(
            hole,
            k,
            t.len() as int,
        ),
    ensures
        closing(t, t1, hole, k, key),
{
    let n = t.len() as int;
    let h = home(t1[k].key, n);
    assert(0 <= h < n) by {
        vstd::arithmetic::div_mod::lemma_mod_bound(t1[k].key as int, n);
    }
    assert(ahead(hole, k, n) == ahead(hole, j, n) + 1);
    assert forall|p: int| 0 <= p < n && ahead(hole, p, n) <= ahead(hole, k, n) implies (
    #[trigger] t1[p]).full() by {
        if ahead(hole, p, n) == ahead(hole, k, n) {
            assert(p == k);
        }
    }
    assert forall|q: int|
        0 <= q < n && q != hole && (#[trigger] t1[q]).full() && ahead(
            home(t1[q].key, n),
            hole,
            n,
        ) < ahead(home(t1[q].key, n), q, n) implies ahead(hole, q, n) > ahead(hole, k, n) by {
        if ahead(hole, q, n) == ahead(hole, k, n) {
            assert(q == k);
        }
    }
}

/// Once the scan has met an empty position, the hole can be emptied.
proof fn lemma_closed(t: Seq<Entry>, t1: Seq<Entry>, hole: int, j: int, key: u64)
    requires
        t.len() >= 2,
        keys_distinct(t),
        table_map(t).len() < t.len(),
        table_map(t).contains_key(key),
        closing(t, t1, hole, j, key),
        ({
            let k = if j + 1 == t.len() {
                0
            } else {
                j + 1
            };
            !t1[k].full()
        }),
    ensures
        ({
            let u = t1.update(hole, Entry { key: 0, slot: EMPTY });
            &&& keys_distinct(u)
            &&& all_reachable(u)
            &&& table_map(u) == table_map(t).remove(key)
            &&& table_map(u).len() < u.len()
        }),
{
    let n = t.len() as int;
    let u = t1.update(hole, Entry { key: 0, slot: EMPTY });
    let k = if j + 1 == n {
        0
    } else {
        j + 1
    };
    assert(k != hole);
    assert(ahead(hole, k, n) == ahead(hole, j, n) + 1);
    assert forall|q: int| 0 <= q < n && (#[trigger] u[q]).full() implies q != hole && t1[q] == u[q]
        && t1[q].full() by {}
    assert forall|q: int| 0 <= q < n && (#[trigger] u[q]).full() implies reachable(u, q) by {
        assert(t1[q].full());
        assert(reachable(t1, q));
        let h = home(t1[q].key, n);
        assert(0 <= h < n) by {
            vstd::arithmetic::div_mod::lemma_mod_bound(t1[q].key as int, n);
        }
        assert forall|p: int| 0 <= p < n && ahead(h, p, n) < ahead(h, q, n) implies (
        #[trigger] u[p]).full() by {
            if p == hole {
                // the way from the hole to q would lead over the empty position
                assert(ahead(hole, q, n) > ahead(hole, j, n));
                assert(q != k);
                assert(ahead(h, k, n) < ahead(h, q, n));
                assert(t1[k].full());
            } else {
                assert(t1[p].full());
            }
        }
    }
    assert(keys_distinct(u)) by {
        assert forall|a: int, b: int|
            0 <= a < n && 0 <= b < n && (#[trigger] u[a]).full() && (#[trigger] u[b]).full()
                && u[a].key == u[b].key implies a == b by {
            assert(t1[a].full() && t1[b].full());
        }
    }
    let m = table_map(t).remove(key);
    assert forall|x: u64| #[trigger] table_map(u).contains_key(x) <==> m.contains_key(x) by {
        if table_map(u).contains_key(x) {
            let q = choose|q: int| #[trigger] holds_key(u, q, x);
            assert(holds_key(u, q, x));
            assert(u[q].full());
            assert(t1[q].full());
        }
        if m.contains_key(x) {
            assert(table_map(t).contains_key(x));
            let q = choose|q: int| q != hole && #[trigger] holds_key(t1, q, x);
            assert(holds_key(t1, q, x));
            assert(holds_key(u, q, x));
        }
    }
    assert forall|x: u64| table_map(u).contains_key(x) implies #[trigger] table_map(u)[x] == m[x] by {
        let q = choose|q: int| #[trigger] holds_key(u, q, x);
        assert(holds_key(u, q, x));
        assert(u[q].full());
        lemma_lookup(u, q);
        assert(t1[q].full());
    }
    assert(table_map(u) =~= m);
    lemma_finite(t);
}

} // verus!
