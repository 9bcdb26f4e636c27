use hashtables::entry::HashEntry;
use hashtables::hashing::HashType;
use hashtables::open_addressing::OAHashTable;
use hashtables::table::HashTable;

fn new_oa(capacity: u32, hash_type: HashType) -> OAHashTable {
    <OAHashTable as HashTable>::new(capacity, hash_type)
}

#[test]
fn oa_put_then_get_returns_value() {
    let mut t = new_oa(10, HashType::KeyModTableSize);
    t.put(3, String::from("three"));
    assert_eq!(t.get(3), Some(String::from("three")));
}

#[test]
fn oa_get_missing_key_is_none() {
    let mut t = new_oa(10, HashType::KeyModTableSize);
    t.put(4, String::from("four"));
    assert_eq!(t.get(5), None);
    assert_eq!(t.get(14), None);
}

#[test]
fn oa_colliding_keys_scenario() {
    // Keys 3, 13 and 23 all map to slot 3 under key-mod-capacity with
    // capacity 10: the second insert passes one occupied slot, the third
    // passes two, so the counter accumulates 0 + 1 + 2 = 3.
    let mut t = new_oa(10, HashType::KeyModTableSize);
    t.put(3, String::from("3"));
    t.put(13, String::from("13"));
    t.put(23, String::from("23"));
    assert_eq!(t.collisions(), 3);
    assert_eq!(t.size(), 3);
    assert_eq!(t.get(3), Some(String::from("3")));
    assert_eq!(t.get(13), Some(String::from("13")));
    assert_eq!(t.get(23), Some(String::from("23")));
}

#[test]
fn oa_overwrite_keeps_size_and_returns_second_value() {
    let mut t = new_oa(10, HashType::KeyModTableSize);
    t.put(7, String::from("first"));
    t.put(7, String::from("second"));
    assert_eq!(t.get(7), Some(String::from("second")));
    assert_eq!(t.size(), 1);
}

#[test]
fn oa_overwrite_after_probe_counts_passed_slots() {
    let mut t = new_oa(10, HashType::KeyModTableSize);
    t.put(3, String::from("a"));
    t.put(13, String::from("b"));
    // Overwriting key 3 stops at its home slot: no new collision.
    t.put(3, String::from("c"));
    assert_eq!(t.get(3), Some(String::from("c")));
    assert_eq!(t.size(), 2);
    assert_eq!(t.collisions(), 1);
    // Overwriting key 13 passes the slot of key 3 again.
    t.put(13, String::from("d"));
    assert_eq!(t.get(13), Some(String::from("d")));
    assert_eq!(t.collisions(), 2);
}

#[test]
fn oa_probe_wraps_around_the_array() {
    let mut t = new_oa(3, HashType::KeyModTableSize);
    t.put(2, String::from("two"));
    t.put(5, String::from("five"));
    assert_eq!(t.get(5), Some(String::from("five")));
    assert_eq!(t.get(2), Some(String::from("two")));
    assert_eq!(t.collisions(), 1);
    assert_eq!(t.size(), 2);
    assert!(t.is_full());
}

#[test]
fn oa_is_full_exactly_at_capacity_minus_one() {
    let mut t = new_oa(2, HashType::KeyModTableSize);
    assert!(!t.is_full());
    t.put(0, String::from("zero"));
    assert!(t.is_full());
    assert_eq!(t.size(), 1);
}

#[test]
fn oa_capacity_one_is_full_from_the_start() {
    let t = new_oa(1, HashType::KeyModTableSize);
    assert!(t.is_full());
    assert_eq!(t.size(), 0);
}

#[test]
fn oa_load_factor_is_size_over_capacity() {
    let mut t = new_oa(10, HashType::KeyModTableSize);
    assert_eq!(t.load_factor(), (0, 10));
    t.put(1, String::from("one"));
    t.put(2, String::from("two"));
    assert_eq!(t.load_factor(), (2, 10));
    assert_eq!(t.load_factor().0, t.size());
    assert_eq!(t.load_factor().1, t.capacity());
}

#[test]
fn oa_collisions_never_decrease() {
    let mut t = new_oa(10, HashType::KeyModTableSize);
    let keys = [3, 13, 23, 7, 17, 4, 3];
    let mut last = t.collisions();
    for k in keys {
        if !t.is_full() {
            t.put(k, k.to_string());
            assert!(t.collisions() >= last);
            last = t.collisions();
        }
    }
}

#[test]
fn oa_mid_square_put_and_get() {
    let mut t = new_oa(10, HashType::MidSquare);
    t.put(7, String::from("seven"));
    t.put(4, String::from("four"));
    assert_eq!(t.get(7), Some(String::from("seven")));
    assert_eq!(t.get(4), Some(String::from("four")));
    assert_eq!(t.size(), 2);
}

#[test]
fn oa_fills_to_the_brim_without_looping() {
    // Insert distinct keys until one slot is left; every probe terminates.
    let mut t = new_oa(8, HashType::KeyModTableSize);
    let mut k: u32 = 0;
    while !t.is_full() {
        t.put(k, k.to_string());
        k += 8; // all keys share home slot 0: worst-case probing
    }
    assert_eq!(t.size(), 7);
    assert_eq!(t.get(48), Some(String::from("48")));
    assert_eq!(t.get(56), None);
}

#[test]
fn hash_entry_states() {
    let filled = HashEntry::Filled((9, String::from("nine")));
    assert!(filled.is_filled());
    assert!(!filled.is_null());
    assert!(!filled.is_deleted());
    assert_eq!(filled.unwrap(), (9, String::from("nine")));

    let null = HashEntry::Null;
    assert!(!null.is_filled());
    assert!(null.is_null());
    assert!(!null.is_deleted());

    let deleted = HashEntry::Deleted;
    assert!(!deleted.is_filled());
    assert!(!deleted.is_null());
    assert!(deleted.is_deleted());
}
