//! The uniform contract that both table kinds satisfy.

use crate::hashing::{hash_index, HashType};
use vstd::prelude::*;

verus! {

/// A fixed-capacity key/value table with a chosen slot-assignment policy.
///
/// Keys are `u32`, values are owned text.  Each implementation supplies a
/// representation invariant (`inv`), a mathematical reading of lookups
/// (`spec_get`), and an exact description of one insert (`put_rel`); the
/// executable operations are verified against those.
///
/// `load_factor` reports the exact rational `size / capacity` as a
/// `(numerator, denominator)` pair, so its value is pinned without rounding.
pub trait HashTable: Sized {
    /// Well-formedness of the representation; established by `new` and
    /// preserved by every operation.
    spec fn inv(&self) -> bool;

    /// Count of live entries.
    spec fn spec_size(&self) -> u32;

    /// Number of slots or buckets, fixed at construction.
    spec fn spec_capacity(&self) -> u32;

    /// Cumulative collision counter; never reset.
    spec fn spec_collisions(&self) -> u32;

    /// The policy chosen at construction.
    spec fn spec_hash_type(&self) -> HashType;

    /// The value a lookup of `key` finds, if any.
    spec fn spec_get(&self, key: u32) -> Option<Seq<char>>;

    /// When the table counts as full.
    spec fn spec_is_full(&self) -> bool;

    /// When an insert of `key` is allowed: room for the entry (or an
    /// overwrite), plus headroom in the counters.
    spec fn can_put(&self, key: u32) -> bool;

    /// Exactly how one insert of (`key`, `value`) transforms the table.
    spec fn put_rel(pre: Self, post: Self, key: u32, value: Seq<char>) -> bool;

    /// Builds an empty table of `capacity` slots using `hash_type`.
    fn new(capacity: u32, hash_type: HashType) -> (t: Self)
        requires
            capacity >= 1,
        ensures
            t.inv(),
            t.spec_size() == 0,
            t.spec_collisions() == 0,
            t.spec_capacity() == capacity,
            t.spec_hash_type() == hash_type,
            forall|k: u32| t.spec_get(k) is None,
    ;

    /// Looks `key` up; returns a copy of the stored value, never a reference.
    fn get(&mut self, key: u32) -> (r: Option<String>)
        requires
            old(self).inv(),
        ensures
            *final(self) == *old(self),
            r is Some <==> old(self).spec_get(key) is Some,
            r matches Some(v) ==> old(self).spec_get(key) == Some(v@),
    ;

    /// Inserts `value` under `key`.
    fn put(&mut self, key: u32, value: String)
        requires
            old(self).inv(),
            old(self).can_put(key),
        ensures
            final(self).inv(),
            final(self).spec_capacity() == old(self).spec_capacity(),
            final(self).spec_hash_type() == old(self).spec_hash_type(),
            final(self).spec_collisions() >= old(self).spec_collisions(),
            final(self).spec_get(key) is Some,
            forall|k: u32| k != key ==> final(self).spec_get(k) == old(self).spec_get(k),
            Self::put_rel(*old(self), *final(self), key, value@),
    ;

    /// The slot the table's policy assigns to `key`; a pure function of the
    /// key, the capacity and the policy, always below the capacity.
    fn hash(&self, key: u32) -> (h: u32)
        requires
            self.inv(),
        ensures
            h as nat == hash_index(self.spec_hash_type(), key, self.spec_capacity()),
            h < self.spec_capacity(),
    ;

    /// The exact ratio `size / capacity`, as numerator and denominator.
    fn load_factor(&self) -> (r: (u32, u32))
        ensures
            r.0 == self.spec_size(),
            r.1 == self.spec_capacity(),
    ;

    /// Cumulative collision count.
    fn collisions(&self) -> (c: u32)
        ensures
            c == self.spec_collisions(),
    ;

    /// Count of live entries.
    fn size(&self) -> (s: u32)
        ensures
            s == self.spec_size(),
    ;

    /// Number of slots or buckets.
    fn capacity(&self) -> (c: u32)
        ensures
            c == self.spec_capacity(),
    ;

    /// Whether the table counts as full.
    fn is_full(&self) -> (b: bool)
        requires
            self.inv(),
        ensures
            b == self.spec_is_full(),
    ;
}

} // verus!
