use bump_allocator::hashmap::{HashMap, HashMapIterator, SimpleHasher, BUCKETS};
use std::hash::Hasher;

#[test]
fn hasher_folds_bytes() {
    let mut h = SimpleHasher(0);
    h.write(&[1, 2, 3]);
    assert_eq!(h.finish(), (1 * 31 + 2) * 31 + 3);
    let mut g = SimpleHasher(7);
    g.absorb(&[]);
    assert_eq!(g.finish(), 7);
    g.absorb(&[255]);
    assert_eq!(g.finish(), 7 * 31 + 255);
}

#[test]
fn hasher_wraps() {
    let mut h = SimpleHasher(u64::MAX);
    h.absorb(&[40]);
    assert_eq!(h.finish(), u64::MAX.wrapping_mul(31).wrapping_add(40));
    assert_eq!(h.finish(), 9);
}

#[test]
fn new_map_is_empty() {
    let m: HashMap<u32, u32> = HashMap::new();
    assert_eq!(BUCKETS, 32);
    assert_eq!(m.get(&1), None);
    assert!(m.iter().next().is_none());
}

#[test]
fn insert_then_get() {
    let mut m: HashMap<String, u32> = HashMap::new();
    m.insert(String::from("one"), 1);
    m.insert(String::from("two"), 2);
    assert_eq!(m.get(&String::from("one")), Some(&1));
    assert_eq!(m.get(&String::from("two")), Some(&2));
    assert_eq!(m.get(&String::from("three")), None);
}

#[test]
fn insert_replaces_the_value_of_an_equal_key() {
    let mut m: HashMap<u64, &str> = HashMap::new();
    m.insert(5, "a");
    m.insert(5, "b");
    assert_eq!(m.get(&5), Some(&"b"));
    let mut it = m.iter();
    assert_eq!(it.next(), Some((&5, &"b")));
    assert_eq!(it.next(), None);
}

#[test]
fn many_keys_are_all_found() {
    let mut m: HashMap<u32, u32> = HashMap::new();
    for k in 0..500u32 {
        m.insert(k, k * 3);
    }
    for k in 0..500u32 {
        assert_eq!(m.get(&k), Some(&(k * 3)));
    }
    assert_eq!(m.get(&500), None);
    let mut seen = vec![false; 500];
    let mut it = m.iter();
    let mut count = 0;
    while let Some((k, v)) = it.next() {
        assert_eq!(*v, *k * 3);
        assert!(!seen[*k as usize]);
        seen[*k as usize] = true;
        count += 1;
    }
    assert_eq!(count, 500);
}

#[test]
fn hashed_entry_points_pick_the_bucket() {
    let mut m: HashMap<u8, u8> = HashMap::new();
    m.insert_hashed(33, 1, 10);
    m.insert_hashed(1, 2, 20);
    m.insert_hashed(0, 3, 30);
    m.insert_hashed(65, 1, 11);
    assert_eq!(m.get_hashed(1, &1), Some(&11));
    assert_eq!(m.get_hashed(33, &2), Some(&20));
    assert_eq!(m.get_hashed(2, &1), None);
    assert_eq!(m.get_hashed(32, &3), Some(&30));
    let mut it = HashMapIterator::new(&m);
    assert_eq!(it.next(), Some((&3, &30)));
    assert_eq!(it.next(), Some((&1, &11)));
    assert_eq!(it.next(), Some((&2, &20)));
    assert_eq!(it.next(), None);
    assert_eq!(it.next(), None);
}

#[test]
fn keys_land_in_the_bucket_of_their_hash() {
    // A `u8` feeds its one byte to the hasher, so its hash is its value.
    let mut m: HashMap<u8, &str> = HashMap::new();
    m.insert(40, "forty");
    m.insert(3, "three");
    m.insert(35, "thirty-five");
    assert_eq!(m.get_hashed(40, &40), Some(&"forty"));
    assert_eq!(m.get_hashed(8, &40), Some(&"forty"));
    assert_eq!(m.get_hashed(0, &40), None);
    assert_eq!(m.get_hashed(3, &35), Some(&"thirty-five"));
    let mut it = m.iter();
    assert_eq!(it.next(), Some((&3, &"three")));
    assert_eq!(it.next(), Some((&35, &"thirty-five")));
    assert_eq!(it.next(), Some((&40, &"forty")));
    assert_eq!(it.next(), None);
}
