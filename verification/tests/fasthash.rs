use std::hash::{Hash, Hasher};

use zjit::fasthash::{FastHashMap, FastHasher};

fn hash_of<T: Hash>(value: &T) -> u64 {
    let mut hasher = FastHasher::default();
    value.hash(&mut hasher);
    hasher.finish()
}

#[test]
fn distinguishes_similar_keys() {
    // Sanity: the hash has to actually depend on every part of the key, including
    // element order, or the tables built on it degrade into linked lists.
    assert_ne!(hash_of(&(1u64, 2u64)), hash_of(&(2u64, 1u64)));
    assert_ne!(hash_of(&vec![1u32, 2, 3]), hash_of(&vec![1u32, 3, 2]));
    assert_ne!(hash_of(&0u64), hash_of(&1u64));
    assert_ne!(hash_of(&"abc"), hash_of(&"abd"));
}

#[test]
fn works_as_a_hashmap_hasher() {
    let mut map: FastHashMap<(u64, u64), u64> = FastHashMap::default();
    for i in 0..1000u64 {
        map.insert((i, i * 7), i);
    }
    assert_eq!(map.len(), 1000);
    for i in 0..1000u64 {
        assert_eq!(map.get(&(i, i * 7)), Some(&i));
    }
    assert_eq!(map.get(&(1000, 7000)), None);
}

#[test]
fn one_word_is_mixed() {
    let mut hasher = FastHasher::default();
    hasher.write_u64(1);
    assert_eq!(hasher.finish(), 0x51_7c_c1_b7_27_22_0a_95);
}

#[test]
fn bytes_are_taken_by_words() {
    let mut by_bytes = FastHasher::default();
    by_bytes.write(&[1, 2, 3, 4, 5, 6, 7, 8, 9, 10]);
    let mut by_words = FastHasher::default();
    by_words.add_word(u64::from_ne_bytes([1, 2, 3, 4, 5, 6, 7, 8]));
    by_words.add_word(u64::from_ne_bytes([9, 10, 0, 0, 0, 0, 0, 0]));
    assert_eq!(by_bytes.finish(), by_words.finish());
}

#[test]
fn bytes_are_taken_in_either_order() {
    let bytes = [1, 2, 3, 4, 5, 6, 7, 8, 9, 10];
    let mut little = FastHasher::default();
    little.write_in_order(&bytes, false);
    let mut words = FastHasher::default();
    words.add_word(0x0807_0605_0403_0201);
    words.add_word(0x0a09);
    assert_eq!(little.finish(), words.finish());

    let mut big = FastHasher::default();
    big.write_in_order(&bytes, true);
    let mut words = FastHasher::default();
    words.add_word(0x0102_0304_0506_0708);
    words.add_word(0x090a_0000_0000_0000);
    assert_eq!(big.finish(), words.finish());

    let mut none = FastHasher::default();
    none.write(&[]);
    assert_eq!(none.finish(), 0);
}

#[test]
fn bytes_are_hashed_in_the_order_of_the_machine() {
    let big_endian = u16::from_ne_bytes([0, 1]) == 1;
    for len in 0..20u8 {
        let bytes: Vec<u8> = (1..=len).collect();
        let mut native = FastHasher::default();
        native.write(&bytes);
        let mut ordered = FastHasher::default();
        ordered.write_in_order(&bytes, big_endian);
        assert_eq!(native.finish(), ordered.finish());
    }
}

#[test]
fn no_word_is_lost() {
    // Whatever was hashed before, two words are told apart.
    let mut left = FastHasher::default();
    left.write_u64(77);
    let mut right = FastHasher::default();
    right.write_u64(77);
    left.write_u32(5);
    right.write_u32(6);
    assert_ne!(left.finish(), right.finish());
}
