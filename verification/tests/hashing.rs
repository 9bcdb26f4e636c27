use hashtables::hashing::{num_of_bits, HashType};
use hashtables::open_addressing::OAHashTable;
use hashtables::table::HashTable;

fn new_oa(capacity: u32, hash_type: HashType) -> OAHashTable {
    <OAHashTable as HashTable>::new(capacity, hash_type)
}

#[test]
fn num_of_bits_values() {
    assert_eq!(num_of_bits(&0), 0);
    assert_eq!(num_of_bits(&1), 1);
    assert_eq!(num_of_bits(&2), 2);
    assert_eq!(num_of_bits(&3), 2);
    assert_eq!(num_of_bits(&255), 8);
    assert_eq!(num_of_bits(&256), 9);
    assert_eq!(num_of_bits(&u32::MAX), 32);
}

#[test]
fn key_mod_hash_values() {
    let t = new_oa(10, HashType::KeyModTableSize);
    assert_eq!(t.hash(3), 3);
    assert_eq!(t.hash(13), 3);
    assert_eq!(t.hash(23), 3);
    assert_eq!(t.hash(7), 7);
    assert_eq!(t.hash(40), 0);
}

#[test]
fn mid_square_hash_values() {
    // Capacity 10: 9 * 10 * 10 = 900 takes 10 bits (ceil), 10 takes 4, the
    // spread is 6, half of it is 3, the divisor is 3 * 3 = 9.
    // key 7: 49 / 9 = 5, 5 % 10 = 5.
    // key 4: 16 / 9 = 1, 1 % 10 = 1.
    // key 100: 10000 / 9 = 1111, 1111 % 10 = 1.
    let t = new_oa(10, HashType::MidSquare);
    assert_eq!(t.hash(7), 5);
    assert_eq!(t.hash(4), 1);
    assert_eq!(t.hash(100), 1);
}

#[test]
fn hash_is_pure_and_in_range() {
    let t = new_oa(13, HashType::MidSquare);
    let u = new_oa(13, HashType::KeyModTableSize);
    for k in [0u32, 1, 5, 12, 13, 100, 65535, u32::MAX] {
        assert_eq!(t.hash(k), t.hash(k));
        assert!(t.hash(k) < 13);
        assert_eq!(u.hash(k), u.hash(k));
        assert!(u.hash(k) < 13);
    }
}

#[test]
fn mid_square_large_capacity_in_range() {
    let t = new_oa(1000, HashType::MidSquare);
    for k in [0u32, 1, 999, 1000, 2999, 123456] {
        assert!(t.hash(k) < 1000);
    }
}
