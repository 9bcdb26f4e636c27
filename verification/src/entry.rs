//! The slot type used by the open-addressing table.

use vstd::prelude::*;

verus! {

/// One slot of the open-addressing table: a live pair, a never-used slot, or
/// a tombstone reserved for future deletion support (no current operation
/// produces `Deleted`).
pub enum HashEntry {
    Filled((u32, String)),
    Null,
    Deleted,
}

/// The key of a filled slot (0 for the other states, which hold no key).
pub open spec fn entry_key(e: HashEntry) -> u32 {
    match e {
        HashEntry::Filled(p) => p.0,
        _ => 0,
    }
}

/// The stored text of a filled slot, as a character sequence.
pub open spec fn entry_value(e: HashEntry) -> Seq<char> {
    match e {
        HashEntry::Filled(p) => p.1@,
        _ => Seq::empty(),
    }
}

/// Does `e` hold a live pair whose key is `k`?
pub open spec fn has_key(e: HashEntry, k: u32) -> bool {
    e is Filled && entry_key(e) == k
}

impl HashEntry {
    /// Is this slot occupied by a live pair?
    pub fn is_filled(&self) -> (r: bool)
        ensures
            r == (*self is Filled),
    {
        match *self {
            HashEntry::Filled(_) => true,
            _ => false,
        }
    }

    /// Has this slot never been used?
    pub fn is_null(&self) -> (r: bool)
        ensures
            r == (*self is Null),
    {
        match *self {
            HashEntry::Null => true,
            _ => false,
        }
    }

    /// Is this slot a tombstone?
    pub fn is_deleted(&self) -> (r: bool)
        ensures
            r == (*self is Deleted),
    {
        match *self {
            HashEntry::Deleted => true,
            _ => false,
        }
    }

    /// Takes the live pair out of a filled slot.
    pub fn unwrap(self) -> (kv: (u32, String))
        requires
            self is Filled,
        ensures
            self == HashEntry::Filled(kv),
    {
        match self {
            HashEntry::Filled(val) => val,
            _ => vstd::pervasive::unreached(),
        }
    }
}

} // verus!
