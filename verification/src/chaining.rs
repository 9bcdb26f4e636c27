//! Fixed-capacity table with separate chaining.
//!
//! Each bucket is an append-only list of entries in insertion order.  An
//! insert that finds `n` entries already in its bucket adds `n` to the
//! collision counter.  Inserting an existing key does not overwrite: the
//! new pair is appended, and lookups keep returning the first match in
//! insertion order.

use crate::hashing::{compute_hash, hash_index, HashType};
use crate::table::HashTable;
use vstd::prelude::*;

verus! {

/// A bucket, abstracted: its keys and texts, in insertion order.
pub open spec fn bucket_view(b: Seq<(u32, String)>) -> Seq<(u32, Seq<char>)> {
    Seq::new(b.len(), |j: int| (b[j].0, b[j].1@))
}

/// The value of the first entry holding `key`, in insertion order.
pub open spec fn first_match(bucket: Seq<(u32, Seq<char>)>, key: u32) -> Option<Seq<char>>
    decreases bucket.len(),
{
    if bucket.len() == 0 {
        None
    } else if bucket[0].0 == key {
        Some(bucket[0].1)
    } else {
        first_match(bucket.drop_first(), key)
    }
}

/// Total number of entries across all buckets.
pub open spec fn total_len(bs: Seq<Seq<(u32, Seq<char>)>>) -> int
    decreases bs.len(),
{
    if bs.len() == 0 {
        0
    } else {
        total_len(bs.drop_last()) + bs.last().len()
    }
}

proof fn lemma_total_len_nonneg(bs: Seq<Seq<(u32, Seq<char>)>>)
    ensures
        total_len(bs) >= 0,
    decreases bs.len(),
{
    if bs.len() > 0 {
        lemma_total_len_nonneg(bs.drop_last());
    }
}

proof fn lemma_total_len_all_empty(bs: Seq<Seq<(u32, Seq<char>)>>)
    requires
        forall|b: int| 0 <= b < bs.len() ==> (#[trigger] bs[b]).len() == 0,
    ensures
        total_len(bs) == 0,
    decreases bs.len(),
{
    if bs.len() > 0 {
        lemma_total_len_all_empty(bs.drop_last());
    }
}

proof fn lemma_total_len_update(bs: Seq<Seq<(u32, Seq<char>)>>, i: int, nb: Seq<(u32, Seq<char>)>)
    requires
        0 <= i < bs.len(),
    ensures
        total_len(bs.update(i, nb)) == total_len(bs) - bs[i].len() + nb.len(),
    decreases bs.len(),
{
    let bs2 = bs.update(i, nb);
    if i == bs.len() - 1 {
        assert(bs2.drop_last() =~= bs.drop_last());
    } else {
        lemma_total_len_update(bs.drop_last(), i, nb);
        assert(bs2.drop_last() =~= bs.drop_last().update(i, nb));
        assert(bs2.last() == bs.last());
    }
}

/// No single bucket holds more entries than all buckets together.
proof fn lemma_bucket_le_total(bs: Seq<Seq<(u32, Seq<char>)>>, i: int)
    requires
        0 <= i < bs.len(),
    ensures
        bs[i].len() <= total_len(bs),
    decreases bs.len(),
{
    lemma_total_len_nonneg(bs.drop_last());
    if i == bs.len() - 1 {
    } else {
        lemma_bucket_le_total(bs.drop_last(), i);
    }
}

/// Appending to a bucket leaves every earlier first match in place; a key
/// with no earlier match finds the appended entry if it carries that key.
proof fn lemma_first_match_push(b: Seq<(u32, Seq<char>)>, p: (u32, Seq<char>), key: u32)
    ensures
        first_match(b.push(p), key) == (if first_match(b, key) is Some {
            first_match(b, key)
        } else if p.0 == key {
            Some(p.1)
        } else {
            None
        }),
    decreases b.len(),
{
    let bp = b.push(p);
    if b.len() == 0 {
        assert(bp[0] == p);
        assert(bp.drop_first() =~= Seq::<(u32, Seq<char>)>::empty());
        assert(first_match(bp.drop_first(), key) is None);
    } else {
        assert(bp[0] == b[0]);
        assert(bp.drop_first() =~= b.drop_first().push(p));
        lemma_first_match_push(b.drop_first(), p, key);
    }
}

/// Hash table resolving collisions by separate chaining.
pub struct SCHashTable {
    capacity: u32,
    size: u32,
    collisions: u32,
    hash_type: HashType,
    entries: Vec<Vec<(u32, String)>>,
}

impl SCHashTable {
    /// The buckets, abstracted to key/text sequences.
    pub closed spec fn buckets(&self) -> Seq<Seq<(u32, Seq<char>)>> {
        Seq::new(self.entries@.len(), |b: int| bucket_view(self.entries@[b]@))
    }
}

impl HashTable for SCHashTable {
    closed spec fn inv(&self) -> bool {
        &&& self.entries@.len() == self.capacity as int
        &&& self.capacity >= 1
        &&& total_len(self.buckets()) == self.size as int
        &&& forall|b: int, j: int|
            #![trigger self.buckets()[b][j]]
            0 <= b < self.buckets().len() && 0 <= j < self.buckets()[b].len() ==> hash_index(
                self.hash_type,
                self.buckets()[b][j].0,
                self.capacity,
            ) as int == b
    }

    closed spec fn spec_size(&self) -> u32 {
        self.size
    }

    closed spec fn spec_capacity(&self) -> u32 {
        self.capacity
    }

    closed spec fn spec_collisions(&self) -> u32 {
        self.collisions
    }

    closed spec fn spec_hash_type(&self) -> HashType {
        self.hash_type
    }

    open spec fn spec_get(&self, key: u32) -> Option<Seq<char>> {
        first_match(
            self.buckets()[hash_index(self.spec_hash_type(), key, self.spec_capacity()) as int],
            key,
        )
    }

    /// Chaining has no hard ceiling; the table counts as full when it holds
    /// as many entries as it has buckets.
    open spec fn spec_is_full(&self) -> bool {
        self.spec_size() == self.spec_capacity()
    }

    open spec fn can_put(&self, key: u32) -> bool {
        &&& self.spec_size() < u32::MAX
        &&& self.spec_collisions() as int + self.spec_size() as int <= u32::MAX as int
    }

    open spec fn put_rel(pre: Self, post: Self, key: u32, value: Seq<char>) -> bool {
        let h0 = hash_index(pre.spec_hash_type(), key, pre.spec_capacity()) as int;
        &&& post.buckets() == pre.buckets().update(h0, pre.buckets()[h0].push((key, value)))
        &&& post.spec_size() == pre.spec_size() + 1
        &&& post.spec_collisions() as int == pre.spec_collisions() as int + (if pre.buckets()[h0].len()
            > 0 {
            pre.buckets()[h0].len() as int
        } else {
            0int
        })
        &&& post.spec_get(key) == (if pre.spec_get(key) is Some {
            pre.spec_get(key)
        } else {
            Some(value)
        })
    }

    fn new(capacity: u32, hash_type: HashType) -> (t: Self) {
        let mut entries: Vec<Vec<(u32, String)>> = Vec::new();
        let mut i: u32 = 0;
        while i < capacity
            invariant
                i <= capacity,
                entries@.len() == i as int,
                forall|j: int| 0 <= j < i as int ==> (#[trigger] entries@[j])@.len() == 0,
            decreases capacity - i,
        {
            entries.push(Vec::new());
            i = i + 1;
        }
        let t = SCHashTable { capacity, size: 0, collisions: 0, hash_type, entries };
        proof {
            assert(forall|b: int| 0 <= b < t.buckets().len() ==> (#[trigger] t.buckets()[b]).len() == 0);
            lemma_total_len_all_empty(t.buckets());
        }
        t
    }

    fn collisions(&self) -> u32 {
        self.collisions
    }

    fn load_factor(&self) -> (u32, u32) {
        (self.size, self.capacity)
    }

    fn size(&self) -> u32 {
        self.size
    }

    fn capacity(&self) -> u32 {
        self.capacity
    }

    fn is_full(&self) -> bool {
        self.size == self.capacity
    }

    fn hash(&self, key: u32) -> u32 {
        compute_hash(&self.hash_type, key, self.capacity)
    }

    fn get(&mut self, key: u32) -> (r: Option<String>) {
        let ghost pre = *self;
        let h = compute_hash(&self.hash_type, key, self.capacity);
        let ghost bv = self.buckets()[h as int];
        let bucket = &self.entries[h as usize];
        proof {
            assert(bv == bucket_view(bucket@));
            assert(bv.skip(0) =~= bv);
        }
        let mut i: usize = 0;
        while i < bucket.len()
            invariant
                *self == pre,
                pre == *old(self),
                pre.inv(),
                h as int == hash_index(pre.spec_hash_type(), key, pre.spec_capacity()) as int,
                bv == pre.buckets()[h as int],
                bv == bucket_view(bucket@),
                i <= bucket@.len(),
                first_match(bv, key) == first_match(bv.skip(i as int), key),
            decreases bucket@.len() - i as int,
        {
            proof {
                assert(bv.skip(i as int)[0] == bv[i as int]);
            }
            if bucket[i].0 == key {
                return Some(bucket[i].1.clone());
            }
            proof {
                assert(bv.skip(i as int).drop_first() =~= bv.skip(i as int + 1));
            }
            i = i + 1;
        }
        proof {
            assert(bv.skip(bucket@.len() as int) =~= Seq::<(u32, Seq<char>)>::empty());
        }
        None
    }

    fn put(&mut self, key: u32, value: String) {
        let ghost pre = *self;
        let ghost val_view = value@;
        let h = compute_hash(&self.hash_type, key, self.capacity);
        let blen = self.entries[h as usize].len();
        proof {
            assert(blen as int == pre.buckets()[h as int].len());
            lemma_bucket_le_total(pre.buckets(), h as int);
        }
        if blen > 0 {
            self.collisions = self.collisions + (blen as u32);
        }
        let bucket = &mut self.entries[h as usize];
        bucket.push((key, value));
        self.size = self.size + 1;
        proof {
            let bs = pre.buckets();
            let bs2 = self.buckets();
            let h0 = h as int;
            let nb = bs[h0].push((key, val_view));
            assert(bucket_view(self.entries@[h0]@) =~= nb);
            assert(bs2 =~= bs.update(h0, nb));
            lemma_total_len_update(bs, h0, nb);
            lemma_first_match_push(bs[h0], (key, val_view), key);
            // placement: every entry still sits in the bucket its key hashes to
            assert forall|b: int, j: int|
                0 <= b < bs2.len() && 0 <= j < bs2[b].len() implies hash_index(
                self.hash_type,
                bs2[b][j].0,
                self.capacity,
            ) as int == b by {
                if b != h0 || j < bs[h0].len() {
                    assert(bs2[b][j] == bs[b][j]);
                } else {
                    assert(bs2[b][j] == (key, val_view));
                }
            }
            assert(self.inv());
            // lookups of other keys are unchanged
            assert forall|k2: u32| k2 != key implies self.spec_get(k2) == pre.spec_get(k2) by {
                let h2 = hash_index(pre.hash_type, k2, pre.capacity) as int;
                if h2 == h0 {
                    lemma_first_match_push(bs[h0], (key, val_view), k2);
                } else {
                    assert(bs2[h2] == bs[h2]);
                }
            }
            assert(Self::put_rel(pre, *self, key, val_view));
        }
    }
}

/// In a chaining table, an insert of (`key`, `value`) followed by a lookup
/// of `key` yields `value`, provided `key` was not already present.  (With
/// `key` already present the lookup keeps returning the earliest entry:
/// chaining never overwrites.)
pub proof fn law_put_then_get_fresh(pre: SCHashTable, post: SCHashTable, key: u32, value: Seq<char>)
    requires
        pre.inv(),
        pre.spec_get(key) is None,
        SCHashTable::put_rel(pre, post, key, value),
    ensures
        post.spec_get(key) == Some(value),
{
}

/// Two successive inserts under the same key: the second one appends, so it
/// grows the size by one and does not change what a lookup of the key finds;
/// if the key was fresh before the first insert, that lookup yields the
/// first value.
pub proof fn law_put_twice(
    t0: SCHashTable,
    t1: SCHashTable,
    t2: SCHashTable,
    key: u32,
    v1: Seq<char>,
    v2: Seq<char>,
)
    requires
        t0.inv(),
        t1.inv(),
        SCHashTable::put_rel(t0, t1, key, v1),
        SCHashTable::put_rel(t1, t2, key, v2),
    ensures
        t2.spec_size() == t1.spec_size() + 1,
        t2.spec_get(key) == t1.spec_get(key),
        t0.spec_get(key) is None ==> t2.spec_get(key) == Some(v1),
{
    assert(t1.spec_get(key) is Some);
}

/// The collision counter never decreases across an insert.
pub proof fn law_collisions_monotone(
    pre: SCHashTable,
    post: SCHashTable,
    key: u32,
    value: Seq<char>,
)
    requires
        SCHashTable::put_rel(pre, post, key, value),
    ensures
        post.spec_collisions() >= pre.spec_collisions(),
{
}

} // verus!
