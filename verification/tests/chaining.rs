use hashtables::chaining::SCHashTable;
use hashtables::hashing::HashType;
use hashtables::table::HashTable;

fn new_sc(capacity: u32, hash_type: HashType) -> SCHashTable {
    <SCHashTable as HashTable>::new(capacity, hash_type)
}

#[test]
fn sc_put_then_get_returns_value() {
    let mut t = new_sc(10, HashType::KeyModTableSize);
    t.put(3, String::from("three"));
    assert_eq!(t.get(3), Some(String::from("three")));
}

#[test]
fn sc_get_missing_key_is_none() {
    let mut t = new_sc(10, HashType::KeyModTableSize);
    t.put(4, String::from("four"));
    assert_eq!(t.get(5), None);
    // Key 14 shares bucket 4 but is absent.
    assert_eq!(t.get(14), None);
}

#[test]
fn sc_colliding_keys_scenario() {
    // Keys 3, 13 and 23 all land in bucket 3: the inserts find 0, 1 and 2
    // earlier entries, so the counter accumulates 0 + 1 + 2 = 3.
    let mut t = new_sc(10, HashType::KeyModTableSize);
    t.put(3, String::from("3"));
    t.put(13, String::from("13"));
    t.put(23, String::from("23"));
    assert_eq!(t.collisions(), 3);
    assert_eq!(t.size(), 3);
    assert_eq!(t.get(3), Some(String::from("3")));
    assert_eq!(t.get(13), Some(String::from("13")));
    assert_eq!(t.get(23), Some(String::from("23")));
}

#[test]
fn sc_duplicate_key_appends_and_keeps_first() {
    // Chaining never overwrites: the size grows and lookups keep returning
    // the value inserted first.
    let mut t = new_sc(10, HashType::KeyModTableSize);
    t.put(7, String::from("first"));
    t.put(7, String::from("second"));
    assert_eq!(t.size(), 2);
    assert_eq!(t.get(7), Some(String::from("first")));
}

#[test]
fn sc_is_full_exactly_at_capacity() {
    let mut t = new_sc(1, HashType::KeyModTableSize);
    assert!(!t.is_full());
    t.put(0, String::from("zero"));
    assert!(t.is_full());
    assert_eq!(t.size(), 1);
}

#[test]
fn sc_can_grow_past_capacity() {
    let mut t = new_sc(2, HashType::KeyModTableSize);
    t.put(0, String::from("a"));
    t.put(1, String::from("b"));
    t.put(2, String::from("c"));
    assert_eq!(t.size(), 3);
    assert_eq!(t.get(2), Some(String::from("c")));
}

#[test]
fn sc_load_factor_is_size_over_capacity() {
    let mut t = new_sc(10, HashType::KeyModTableSize);
    assert_eq!(t.load_factor(), (0, 10));
    t.put(1, String::from("one"));
    assert_eq!(t.load_factor(), (1, 10));
    assert_eq!(t.load_factor().0, t.size());
    assert_eq!(t.load_factor().1, t.capacity());
}

#[test]
fn sc_collisions_never_decrease() {
    let mut t = new_sc(10, HashType::KeyModTableSize);
    let keys = [3, 13, 23, 7, 17, 4, 3];
    let mut last = t.collisions();
    for k in keys {
        t.put(k, k.to_string());
        assert!(t.collisions() >= last);
        last = t.collisions();
    }
}

#[test]
fn sc_mid_square_put_and_get() {
    let mut t = new_sc(10, HashType::MidSquare);
    t.put(7, String::from("seven"));
    t.put(100, String::from("hundred"));
    assert_eq!(t.get(7), Some(String::from("seven")));
    assert_eq!(t.get(100), Some(String::from("hundred")));
    assert_eq!(t.size(), 2);
}
