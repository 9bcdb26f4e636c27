//! Fixed-capacity table with linear-probing open addressing.
//!
//! All entries live in one slot array.  An insert walks forward from the
//! key's home slot, counting one collision per occupied slot it passes,
//! until it finds the key (overwrite) or a never-used slot (place).  The
//! table is never allowed to fill completely: one empty slot always
//! remains, which is what makes every probe walk terminate.

use crate::entry::{entry_key, entry_value, has_key, HashEntry};
use crate::hashing::{compute_hash, hash_index, HashType};
use crate::table::HashTable;
use vstd::prelude::*;

verus! {

/// Forward probe distance from slot `start` to slot `j`, wrapping at `c`.
pub open spec fn probe_dist(start: int, j: int, c: int) -> int {
    if j >= start {
        j - start
    } else {
        j - start + c
    }
}

/// The slot reached after `d` forward steps from `start`, wrapping at `c`.
pub open spec fn probe_slot(start: int, d: int, c: int) -> int {
    if start + d < c {
        start + d
    } else {
        start + d - c
    }
}

/// Home slot that the policy assigns to `key`.
pub open spec fn home_of(ht: HashType, cap: u32, key: u32) -> int {
    hash_index(ht, key, cap) as int
}

/// No two distinct slots hold the same live key.
pub open spec fn unique_keys(es: Seq<HashEntry>) -> bool {
    forall|a: int, b: int|
        #![trigger es[a], es[b]]
        0 <= a < es.len() && 0 <= b < es.len() && es[a] is Filled && es[b] is Filled
            && entry_key(es[a]) == entry_key(es[b]) ==> a == b
}

/// No slot is a tombstone (no operation ever produces one).
pub open spec fn no_deleted(es: Seq<HashEntry>) -> bool {
    forall|i: int| 0 <= i < es.len() ==> !((#[trigger] es[i]) is Deleted)
}

/// Every live entry is reachable from its home slot: all slots strictly
/// between an entry's home and the slot it occupies are themselves occupied.
pub open spec fn probing_inv(es: Seq<HashEntry>, ht: HashType, cap: u32) -> bool {
    forall|i: int, j: int|
        #![trigger es[i], es[j]]
        0 <= i < es.len() && 0 <= j < es.len() && es[i] is Filled && probe_dist(
            home_of(ht, cap, entry_key(es[i])),
            j,
            cap as int,
        ) < probe_dist(home_of(ht, cap, entry_key(es[i])), i, cap as int) ==> es[j] is Filled
}

/// Number of occupied slots.
pub open spec fn filled_count(es: Seq<HashEntry>) -> int
    decreases es.len(),
{
    if es.len() == 0 {
        0
    } else {
        filled_count(es.drop_last()) + (if es.last() is Filled {
            1int
        } else {
            0int
        })
    }
}

/// Some slot holds `key`.
pub open spec fn slots_contain(es: Seq<HashEntry>, key: u32) -> bool {
    exists|i: int| 0 <= i < es.len() && has_key(es[i], key)
}

/// The slot holding `key` (meaningful when `slots_contain` and keys are
/// unique).
pub open spec fn key_slot(es: Seq<HashEntry>, key: u32) -> int {
    choose|i: int| 0 <= i < es.len() && has_key(es[i], key)
}

/// What a lookup of `key` in the slot array finds.
pub open spec fn slots_get(es: Seq<HashEntry>, key: u32) -> Option<Seq<char>> {
    if slots_contain(es, key) {
        Some(entry_value(es[key_slot(es, key)]))
    } else {
        None
    }
}

/// The probe walk for `key` from home slot `h0` runs `d` steps through
/// occupied slots holding other keys, and stops there: at step `d` it sees
/// either a never-used slot or `key` itself.
pub open spec fn probe_ends_at(es: Seq<HashEntry>, h0: int, c: int, key: u32, d: int) -> bool {
    &&& 0 <= d < c
    &&& forall|dd: int|
        0 <= dd < d ==> (#[trigger] es[probe_slot(h0, dd, c)]) is Filled && entry_key(
            es[probe_slot(h0, dd, c)],
        ) != key
    &&& (es[probe_slot(h0, d, c)] is Null || has_key(es[probe_slot(h0, d, c)], key))
}

proof fn lemma_filled_count_bounds(es: Seq<HashEntry>)
    ensures
        0 <= filled_count(es) <= es.len(),
    decreases es.len(),
{
    if es.len() > 0 {
        lemma_filled_count_bounds(es.drop_last());
    }
}

proof fn lemma_filled_count_all_null(es: Seq<HashEntry>)
    requires
        forall|i: int| 0 <= i < es.len() ==> !((#[trigger] es[i]) is Filled),
    ensures
        filled_count(es) == 0,
    decreases es.len(),
{
    if es.len() > 0 {
        lemma_filled_count_all_null(es.drop_last());
    }
}

proof fn lemma_filled_count_update(es: Seq<HashEntry>, i: int, e: HashEntry)
    requires
        0 <= i < es.len(),
    ensures
        filled_count(es.update(i, e)) == filled_count(es) + (if e is Filled {
            1int
        } else {
            0int
        }) - (if es[i] is Filled {
            1int
        } else {
            0int
        }),
    decreases es.len(),
{
    let es2 = es.update(i, e);
    if i == es.len() - 1 {
        assert(es2.drop_last() =~= es.drop_last());
    } else {
        lemma_filled_count_update(es.drop_last(), i, e);
        assert(es2.drop_last() =~= es.drop_last().update(i, e));
        assert(es2.last() == es.last());
    }
}

/// A slot array with fewer occupied slots than slots, and no tombstones,
/// has a never-used slot somewhere.
proof fn lemma_exists_null(es: Seq<HashEntry>)
    requires
        filled_count(es) < es.len(),
        no_deleted(es),
    ensures
        exists|j: int| 0 <= j < es.len() && es[j] is Null,
    decreases es.len(),
{
    lemma_filled_count_bounds(es.drop_last());
    if es.last() is Null {
        assert(0 <= es.len() - 1 < es.len() && es[es.len() - 1] is Null);
    } else {
        assert(forall|i: int|
            0 <= i < es.drop_last().len() ==> !((#[trigger] es.drop_last()[i]) is Deleted));
        lemma_exists_null(es.drop_last());
        let j = choose|j: int| 0 <= j < es.drop_last().len() && es.drop_last()[j] is Null;
        assert(0 <= j < es.len() && es[j] is Null);
    }
}

/// With unique keys, any slot holding `key` is the slot that `slots_get`
/// reads.
proof fn lemma_slots_get_at(es: Seq<HashEntry>, key: u32, i: int)
    requires
        0 <= i < es.len(),
        has_key(es[i], key),
        unique_keys(es),
    ensures
        slots_contain(es, key),
        key_slot(es, key) == i,
        slots_get(es, key) == Some(entry_value(es[i])),
{
    assert(slots_contain(es, key));
    let j = key_slot(es, key);
    assert(has_key(es[j], key));
}

/// If the probe walk for `key` reaches a never-used slot, the table does
/// not hold `key` at all.
proof fn lemma_no_key_beyond_null(es: Seq<HashEntry>, ht: HashType, cap: u32, key: u32, steps: int)
    requires
        es.len() == cap as int,
        cap >= 1,
        probing_inv(es, ht, cap),
        0 <= home_of(ht, cap, key) < cap as int,
        0 <= steps < cap as int,
        forall|dd: int|
            0 <= dd < steps ==> (#[trigger] es[probe_slot(
                home_of(ht, cap, key),
                dd,
                cap as int,
            )]) is Filled && entry_key(es[probe_slot(home_of(ht, cap, key), dd, cap as int)])
                != key,
        es[probe_slot(home_of(ht, cap, key), steps, cap as int)] is Null,
    ensures
        !slots_contain(es, key),
{
    let c = cap as int;
    let h0 = home_of(ht, cap, key);
    let sn = probe_slot(h0, steps, c);
    if slots_contain(es, key) {
        let i = choose|i: int| 0 <= i < es.len() && has_key(es[i], key);
        let di = probe_dist(h0, i, c);
        assert(0 <= di < c);
        assert(probe_slot(h0, di, c) == i);
        assert(probe_dist(h0, sn, c) == steps);
        if di < steps {
            assert(entry_key(es[probe_slot(h0, di, c)]) != key);
            assert(false);
        } else if di == steps {
            assert(false);
        } else {
            assert(es[sn] is Filled);
            assert(false);
        }
    }
}

/// Updating the stopping slot of `key`'s probe walk keeps keys unique.
proof fn lemma_update_unique(es: Seq<HashEntry>, s: int, e: HashEntry, key: u32)
    requires
        0 <= s < es.len(),
        has_key(e, key),
        es[s] is Null || has_key(es[s], key),
        es[s] is Null ==> !slots_contain(es, key),
        unique_keys(es),
    ensures
        unique_keys(es.update(s, e)),
{
    let es2 = es.update(s, e);
    assert forall|a: int, b: int|
        0 <= a < es2.len() && 0 <= b < es2.len() && es2[a] is Filled && es2[b] is Filled
            && entry_key(es2[a]) == entry_key(es2[b]) implies a == b by {
        if a != s && b != s {
            assert(es2[a] == es[a] && es2[b] == es[b]);
        } else if a == s && b != s {
            assert(has_key(es[b], key));
            assert(slots_contain(es, key));
            assert(has_key(es[s], key));
        } else if b == s && a != s {
            assert(has_key(es[a], key));
            assert(slots_contain(es, key));
            assert(has_key(es[s], key));
        }
    }
}

/// Updating the stopping slot of `key`'s probe walk does not change what a
/// lookup of any other key finds.
proof fn lemma_update_get_unchanged(es: Seq<HashEntry>, s: int, e: HashEntry, key: u32)
    requires
        0 <= s < es.len(),
        has_key(e, key),
        es[s] is Null || has_key(es[s], key),
        unique_keys(es),
        unique_keys(es.update(s, e)),
    ensures
        forall|k2: u32| k2 != key ==> slots_get(es.update(s, e), k2) == slots_get(es, k2),
{
    let es2 = es.update(s, e);
    assert forall|k2: u32| k2 != key implies slots_get(es2, k2) == slots_get(es, k2) by {
        if slots_contain(es2, k2) {
            let i = choose|i: int| 0 <= i < es2.len() && has_key(es2[i], k2);
            assert(i != s);
            assert(has_key(es[i], k2));
            lemma_slots_get_at(es, k2, i);
            lemma_slots_get_at(es2, k2, i);
        } else {
            if slots_contain(es, k2) {
                let i = choose|i: int| 0 <= i < es.len() && has_key(es[i], k2);
                assert(i != s);
                assert(has_key(es2[i], k2));
                assert(false);
            }
        }
    }
}

/// Filling the stopping slot of `key`'s probe walk preserves reachability
/// of every live entry from its home slot.
proof fn lemma_update_probing(es: Seq<HashEntry>, ht: HashType, cap: u32, key: u32, e: HashEntry, d: int)
    requires
        es.len() == cap as int,
        cap >= 1,
        probing_inv(es, ht, cap),
        has_key(e, key),
        0 <= home_of(ht, cap, key) < cap as int,
        probe_ends_at(es, home_of(ht, cap, key), cap as int, key, d),
    ensures
        probing_inv(es.update(probe_slot(home_of(ht, cap, key), d, cap as int), e), ht, cap),
{
    let c = cap as int;
    let h0 = home_of(ht, cap, key);
    let s = probe_slot(h0, d, c);
    let es2 = es.update(s, e);
    assert forall|i: int, j: int|
        0 <= i < es2.len() && 0 <= j < es2.len() && es2[i] is Filled && probe_dist(
            home_of(ht, cap, entry_key(es2[i])),
            j,
            c,
        ) < probe_dist(home_of(ht, cap, entry_key(es2[i])), i, c) implies es2[j] is Filled by {
        if i == s {
            let dj = probe_dist(h0, j, c);
            assert(probe_dist(h0, s, c) == d);
            assert(j == probe_slot(h0, dj, c));
            assert(es[j] is Filled);
        } else {
            assert(es2[i] == es[i]);
            assert(es[j] is Filled);
        }
    }
}

/// Hash table resolving collisions by open addressing with linear probing.
pub struct OAHashTable {
    capacity: u32,
    size: u32,
    collisions: u32,
    hash_type: HashType,
    entries: Vec<HashEntry>,
}

impl OAHashTable {
    /// The slot array, as a mathematical sequence.
    pub closed spec fn slots(&self) -> Seq<HashEntry> {
        self.entries@
    }

    /// Does the table hold a live entry under `key`?
    pub open spec fn spec_contains(&self, key: u32) -> bool {
        slots_contain(self.slots(), key)
    }
}

impl HashTable for OAHashTable {
    closed spec fn inv(&self) -> bool {
        &&& self.entries@.len() == self.capacity as int
        &&& self.capacity >= 1
        &&& self.size < self.capacity
        &&& filled_count(self.entries@) == self.size as int
        &&& no_deleted(self.entries@)
        &&& unique_keys(self.entries@)
        &&& probing_inv(self.entries@, self.hash_type, self.capacity)
    }

    closed spec fn spec_size(&self) -> u32 {
        self.size
    }

    closed spec fn spec_capacity(&self) -> u32 {
        self.capacity
    }

    closed spec fn spec_collisions(&self) -> u32 {
        self.collisions
    }

    closed spec fn spec_hash_type(&self) -> HashType {
        self.hash_type
    }

    open spec fn spec_get(&self, key: u32) -> Option<Seq<char>> {
        slots_get(self.slots(), key)
    }

    /// One slot is always kept free so that probing terminates.
    open spec fn spec_is_full(&self) -> bool {
        self.spec_size() as int == self.spec_capacity() as int - 1
    }

    open spec fn can_put(&self, key: u32) -> bool {
        &&& !self.spec_is_full() || self.spec_contains(key)
        &&& self.spec_collisions() as int + self.spec_capacity() as int - 1 <= u32::MAX as int
    }

    open spec fn put_rel(pre: Self, post: Self, key: u32, value: Seq<char>) -> bool {
        let c = pre.spec_capacity() as int;
        let h0 = home_of(pre.spec_hash_type(), pre.spec_capacity(), key);
        &&& post.spec_get(key) == Some(value)
        &&& post.spec_size() as int == pre.spec_size() as int + (if pre.spec_contains(key) {
            0int
        } else {
            1int
        })
        &&& exists|d: int|
            {
                &&& #[trigger] probe_ends_at(pre.slots(), h0, c, key, d)
                &&& post.spec_collisions() as int == pre.spec_collisions() as int + d
                &&& has_key(post.slots()[probe_slot(h0, d, c)], key)
                &&& entry_value(post.slots()[probe_slot(h0, d, c)]) == value
                &&& post.slots().len() == pre.slots().len()
                &&& forall|j: int|
                    0 <= j < c && j != probe_slot(h0, d, c) ==> #[trigger] post.slots()[j]
                        == pre.slots()[j]
            }
    }

    fn new(capacity: u32, hash_type: HashType) -> (t: Self) {
        let mut entries: Vec<HashEntry> = Vec::new();
        let mut i: u32 = 0;
        while i < capacity
            invariant
                i <= capacity,
                entries@.len() == i as int,
                forall|j: int| 0 <= j < i as int ==> (#[trigger] entries@[j]) is Null,
            decreases capacity - i,
        {
            entries.push(HashEntry::Null);
            i = i + 1;
        }
        let t = OAHashTable { capacity, size: 0, collisions: 0, hash_type, entries };
        proof {
            lemma_filled_count_all_null(t.entries@);
            assert forall|k: u32| t.spec_get(k) is None by {
                assert(!slots_contain(t.entries@, k));
            }
        }
        t
    }

    fn collisions(&self) -> u32 {
        self.collisions
    }

    fn load_factor(&self) -> (u32, u32) {
        (self.size, self.capacity)
    }

    fn size(&self) -> u32 {
        self.size
    }

    fn capacity(&self) -> u32 {
        self.capacity
    }

    fn is_full(&self) -> bool {
        self.size == self.capacity - 1
    }

    fn hash(&self, key: u32) -> u32 {
        compute_hash(&self.hash_type, key, self.capacity)
    }

    fn get(&mut self, key: u32) -> (r: Option<String>) {
        let ghost pre = *self;
        let h0 = compute_hash(&self.hash_type, key, self.capacity);
        let mut idx: u32 = h0;
        let mut steps: u32 = 0;
        while !self.entries[idx as usize].is_null()
            invariant
                *self == pre,
                pre.inv(),
                h0 as int == home_of(pre.hash_type, pre.capacity, key),
                h0 < pre.capacity,
                0 <= steps < pre.capacity,
                idx as int == probe_slot(h0 as int, steps as int, pre.capacity as int),
                idx < pre.capacity,
                forall|dd: int|
                    0 <= dd < steps as int ==> (#[trigger] pre.entries@[probe_slot(
                        h0 as int,
                        dd,
                        pre.capacity as int,
                    )]) is Filled && entry_key(
                        pre.entries@[probe_slot(h0 as int, dd, pre.capacity as int)],
                    ) != key,
            decreases pre.capacity - steps,
        {
            match &self.entries[idx as usize] {
                HashEntry::Filled(p) => {
                    if p.0 == key {
                        proof {
                            lemma_slots_get_at(pre.entries@, key, idx as int);
                        }
                        return Some(p.1.clone());
                    }
                },
                _ => {},
            }
            proof {
                assert(pre.entries@[idx as int] is Filled);
                assert(entry_key(pre.entries@[idx as int]) != key);
                lemma_exists_null(pre.entries@);
                let jn = choose|j: int| 0 <= j < pre.entries@.len() && pre.entries@[j] is Null;
                let dn = probe_dist(h0 as int, jn, pre.capacity as int);
                assert(jn == probe_slot(h0 as int, dn, pre.capacity as int));
                if dn < steps as int {
                    assert(pre.entries@[probe_slot(h0 as int, dn, pre.capacity as int)] is Filled);
                    assert(false);
                }
                assert((steps as int) < dn);
                let c = pre.capacity as int;
                if idx as int + 1 == c {
                    vstd::arithmetic::div_mod::lemma_mod_self_0(c);
                } else {
                    vstd::arithmetic::div_mod::lemma_small_mod(
                        (idx + 1) as nat,
                        pre.capacity as nat,
                    );
                }
                assert(((idx as int) + 1) % c == probe_slot(h0 as int, (steps as int) + 1, c));
            }
            idx = (idx + 1) % self.capacity;
            steps = steps + 1;
        }
        proof {
            lemma_no_key_beyond_null(
                pre.entries@,
                pre.hash_type,
                pre.capacity,
                key,
                steps as int,
            );
        }
        None
    }

    fn put(&mut self, key: u32, value: String) {
        let ghost pre = *self;
        let h0 = compute_hash(&self.hash_type, key, self.capacity);
        let mut idx: u32 = h0;
        let mut steps: u32 = 0;
        loop
            invariant
                self.capacity == pre.capacity,
                self.size == pre.size,
                self.hash_type == pre.hash_type,
                self.entries == pre.entries,
                self.collisions as int == pre.collisions as int + steps as int,
                pre.inv(),
                pre.can_put(key),
                h0 as int == home_of(pre.hash_type, pre.capacity, key),
                h0 < pre.capacity,
                0 <= steps < pre.capacity,
                idx as int == probe_slot(h0 as int, steps as int, pre.capacity as int),
                idx < pre.capacity,
                forall|dd: int|
                    0 <= dd < steps as int ==> (#[trigger] pre.entries@[probe_slot(
                        h0 as int,
                        dd,
                        pre.capacity as int,
                    )]) is Filled && entry_key(
                        pre.entries@[probe_slot(h0 as int, dd, pre.capacity as int)],
                    ) != key,
            ensures
                self.capacity == pre.capacity,
                self.size == pre.size,
                self.hash_type == pre.hash_type,
                self.entries == pre.entries,
                self.collisions as int == pre.collisions as int + steps as int,
                0 <= steps < pre.capacity,
                idx as int == probe_slot(h0 as int, steps as int, pre.capacity as int),
                idx < pre.capacity,
                probe_ends_at(
                    pre.entries@,
                    h0 as int,
                    pre.capacity as int,
                    key,
                    steps as int,
                ),
            decreases pre.capacity - steps,
        {
            match &self.entries[idx as usize] {
                HashEntry::Filled(p) => {
                    if p.0 == key {
                        break;
                    }
                },
                _ => {
                    break;
                },
            }
            proof {
                assert(pre.entries@[idx as int] is Filled);
                assert(entry_key(pre.entries@[idx as int]) != key);
                lemma_exists_null(pre.entries@);
                let jn = choose|j: int| 0 <= j < pre.entries@.len() && pre.entries@[j] is Null;
                let dn = probe_dist(h0 as int, jn, pre.capacity as int);
                assert(jn == probe_slot(h0 as int, dn, pre.capacity as int));
                if dn < steps as int {
                    assert(pre.entries@[probe_slot(h0 as int, dn, pre.capacity as int)] is Filled);
                    assert(false);
                }
                assert((steps as int) < dn);
                let c = pre.capacity as int;
                if idx as int + 1 == c {
                    vstd::arithmetic::div_mod::lemma_mod_self_0(c);
                } else {
                    vstd::arithmetic::div_mod::lemma_small_mod(
                        (idx + 1) as nat,
                        pre.capacity as nat,
                    );
                }
                assert(((idx as int) + 1) % c == probe_slot(h0 as int, (steps as int) + 1, c));
            }
            idx = (idx + 1) % self.capacity;
            steps = steps + 1;
            self.collisions = self.collisions + 1;
        }
        let ghost d = steps as int;
        let ghost c = pre.capacity as int;
        let ghost s = idx as int;
        let ghost val_view = value@;
        let is_new = !self.entries[idx as usize].is_filled();
        if is_new {
            proof {
                assert(pre.entries@[s] is Null);
                lemma_no_key_beyond_null(pre.entries@, pre.hash_type, pre.capacity, key, d);
            }
            self.size = self.size + 1;
        } else {
            proof {
                lemma_slots_get_at(pre.entries@, key, s);
            }
        }
        self.entries[idx as usize] = HashEntry::Filled((key, value));
        proof {
            let es = pre.entries@;
            let es2 = self.entries@;
            let e = es2[s];
            let hh = home_of(pre.hash_type, pre.capacity, key);
            assert(hh == h0 as int);
            assert(es2 == es.update(s, e));
            assert(has_key(e, key) && entry_value(e) == val_view);
            assert(probe_ends_at(es, hh, c, key, d));
            assert(probe_slot(hh, d, c) == s);
            assert(es[s] is Null || has_key(es[s], key));
            lemma_filled_count_update(es, s, e);
            lemma_update_unique(es, s, e, key);
            lemma_update_probing(es, pre.hash_type, pre.capacity, key, e, d);
            lemma_update_get_unchanged(es, s, e, key);
            lemma_slots_get_at(es2, key, s);
            assert(no_deleted(es2)) by {
                assert forall|j: int| 0 <= j < es2.len() implies !((#[trigger] es2[j]) is Deleted) by {
                    if j != s {
                        assert(es2[j] == es[j]);
                    }
                }
            }
            assert(self.inv());
            assert(self.spec_get(key) == Some(val_view));
            assert(self.spec_size() as int == pre.spec_size() as int + (if pre.spec_contains(key) {
                0int
            } else {
                1int
            }));
            assert(probe_ends_at(pre.slots(), hh, c, key, d));
            assert(self.spec_collisions() as int == pre.spec_collisions() as int + d);
            assert(has_key(self.slots()[probe_slot(hh, d, c)], key));
            assert(entry_value(self.slots()[probe_slot(hh, d, c)]) == val_view);
            assert(self.slots().len() == pre.slots().len());
            assert(forall|j: int|
                0 <= j < c && j != probe_slot(hh, d, c) ==> #[trigger] self.slots()[j]
                    == pre.slots()[j]);
            assert(hh == home_of(pre.spec_hash_type(), pre.spec_capacity(), key));
            assert(c == pre.spec_capacity() as int);
            assert(probe_ends_at(
                pre.slots(),
                home_of(pre.spec_hash_type(), pre.spec_capacity(), key),
                pre.spec_capacity() as int,
                key,
                d,
            ));
            assert(Self::put_rel(pre, *self, key, val_view));
        }
    }
}

/// In an open-addressing table, an insert of (`key`, `value`) followed by a
/// lookup of `key` yields exactly `value`.
pub proof fn law_put_then_get(pre: OAHashTable, post: OAHashTable, key: u32, value: Seq<char>)
    requires
        pre.inv(),
        OAHashTable::put_rel(pre, post, key, value),
    ensures
        post.spec_get(key) == Some(value),
{
}

/// Two successive inserts under the same key: the second one overwrites, so
/// it leaves the size unchanged and a lookup yields the second value.
pub proof fn law_put_twice(
    t0: OAHashTable,
    t1: OAHashTable,
    t2: OAHashTable,
    key: u32,
    v1: Seq<char>,
    v2: Seq<char>,
)
    requires
        t0.inv(),
        t1.inv(),
        OAHashTable::put_rel(t0, t1, key, v1),
        OAHashTable::put_rel(t1, t2, key, v2),
    ensures
        t2.spec_get(key) == Some(v2),
        t2.spec_size() == t1.spec_size(),
{
    assert(t1.spec_get(key) is Some);
    assert(t1.spec_contains(key));
}

/// The collision counter never decreases across an insert.
pub proof fn law_collisions_monotone(
    pre: OAHashTable,
    post: OAHashTable,
    key: u32,
    value: Seq<char>,
)
    requires
        OAHashTable::put_rel(pre, post, key, value),
    ensures
        post.spec_collisions() >= pre.spec_collisions(),
{
}

} // verus!

