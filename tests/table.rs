use hash_table::{HashTable, Hashable, DEFAULT_CAPACITY, DJB2_SEED};

fn s(x: &str) -> String {
    x.to_string()
}

#[test]
fn string_keys_round_trip_through_growth() {
    let mut table = HashTable::<String, String>::with_capacity(11);
    for i in 0..11 {
        table.insert(format!("{}", i), format!("{}", 100_000 + i));
    }
    for i in 0..11 {
        let key = format!("{}", i);
        assert_eq!(*table.get(&key).unwrap(), format!("{}", 100_000 + i));
    }
    assert_eq!(table.capacity(), 11);
    assert_eq!(table.len(), 11);

    table.insert(s("69"), s("69"));
    assert_eq!(table.capacity(), 23);
    assert_eq!(table.len(), 12);

    for i in 0..11 {
        let key = format!("{}", i);
        assert_eq!(*table.get(&key).unwrap(), format!("{}", 100_000 + i));
    }
    assert_eq!(*table.get(&s("69")).unwrap(), s("69"));
}

#[test]
fn upsert_keeps_last_value_and_size() {
    let mut table = HashTable::<String, u32>::new();
    table.insert(s("k"), 1);
    let size = table.len();
    table.insert(s("k"), 2);
    assert_eq!(table.get(&s("k")), Some(&2));
    assert_eq!(table.len(), size);
    assert_eq!(table.len(), 1);
}

#[test]
fn upsert_into_full_table_does_not_grow() {
    let mut table = HashTable::<usize, usize>::with_capacity(2);
    table.insert(1, 10);
    table.insert(2, 20);
    assert_eq!(table.len(), 2);
    table.insert(2, 21);
    assert_eq!(table.capacity(), 2);
    assert_eq!(table.get(&2), Some(&21));
    assert_eq!(table.get(&1), Some(&10));
}

#[test]
fn retrieval_complete_for_distinct_keys() {
    let mut table = HashTable::<usize, usize>::with_capacity(5);
    for k in 0..200usize {
        table.insert(k * 7, k + 1000);
    }
    for k in 0..200usize {
        assert_eq!(table.get(&(k * 7)), Some(&(k + 1000)));
    }
    assert_eq!(table.len(), 200);
}

#[test]
fn absent_keys_are_none() {
    let mut table = HashTable::<usize, usize>::with_capacity(3);
    assert_eq!(table.get(&0), None);
    table.insert(1, 1);
    table.insert(4, 4);
    table.insert(7, 7);
    table.insert(10, 10);
    assert_eq!(table.get(&0), None);
    assert_eq!(table.get(&2), None);
    assert_eq!(table.get(&13), None);
    let mut strings = HashTable::<String, usize>::new();
    strings.insert(s("present"), 1);
    assert_eq!(strings.get(&s("absent")), None);
    assert_eq!(strings.get(&s("")), None);
}

#[test]
fn absent_key_in_full_table_is_none() {
    let mut table = HashTable::<usize, usize>::with_capacity(3);
    table.insert(0, 0);
    table.insert(1, 1);
    table.insert(2, 2);
    assert_eq!(table.len(), table.capacity());
    assert_eq!(table.get(&3), None);
    assert!(table.get_mut(&5).is_none());
}

#[test]
fn growth_twice_preserves_mapping() {
    let mut table = HashTable::<usize, String>::with_capacity(1);
    table.insert(100, s("first"));
    assert_eq!(table.capacity(), 1);
    table.insert(200, s("second"));
    assert_eq!(table.capacity(), 3);
    table.insert(300, s("third"));
    table.insert(400, s("fourth"));
    assert_eq!(table.capacity(), 7);
    for k in 0..4usize {
        table.insert(k, format!("{}", k));
    }
    assert_eq!(table.capacity(), 15);
    assert_eq!(table.get(&100), Some(&s("first")));
    assert_eq!(table.get(&200), Some(&s("second")));
    assert_eq!(table.get(&300), Some(&s("third")));
    assert_eq!(table.get(&400), Some(&s("fourth")));
    for k in 0..4usize {
        assert_eq!(*table.get(&k).unwrap(), format!("{}", k));
    }
}

#[test]
fn get_mut_increment_is_seen_by_get() {
    let mut table = HashTable::<usize, usize>::new();
    table.insert(5, 41);
    table.insert(66, 1);
    let size = table.len();
    *table.get_mut(&5).unwrap() += 1;
    assert_eq!(table.get(&5), Some(&42));
    assert_eq!(table.get(&66), Some(&1));
    assert_eq!(table.len(), size);
}

#[test]
fn new_table_is_empty_with_default_capacity() {
    let table = HashTable::<String, String>::new();
    assert_eq!(table.capacity(), DEFAULT_CAPACITY);
    assert_eq!(table.capacity(), 61);
    assert_eq!(table.len(), 0);
    for i in 0..table.capacity() {
        assert!(table.slot(i).is_none());
    }
}

#[test]
fn colliding_keys_probe_linearly() {
    let mut table = HashTable::<usize, usize>::with_capacity(7);
    table.insert(3, 30);
    table.insert(10, 100);
    table.insert(17, 170);
    assert_eq!(table.slot(3), Some((&3, &30)));
    assert_eq!(table.slot(4), Some((&10, &100)));
    assert_eq!(table.slot(5), Some((&17, &170)));
    assert_eq!(table.slot(6), None);
    table.insert(6, 60);
    table.insert(13, 130);
    assert_eq!(table.slot(6), Some((&6, &60)));
    assert_eq!(table.slot(0), Some((&13, &130)));
    assert_eq!(table.get(&13), Some(&130));
    assert_eq!(table.get(&17), Some(&170));
}

#[test]
fn slots_hold_exactly_the_keys() {
    let mut table = HashTable::<usize, usize>::with_capacity(4);
    for k in 0..9usize {
        table.insert(k * 3, k);
    }
    let mut seen = 0;
    for i in 0..table.capacity() {
        if let Some((k, v)) = table.slot(i) {
            assert_eq!(*k, *v * 3);
            seen += 1;
        }
    }
    assert_eq!(seen, table.len());
    assert_eq!(seen, 9);
}

#[test]
fn string_digest_is_djb2() {
    let abc = s("abc");
    assert_eq!(abc.hash(), abc.hash());
    assert_eq!(abc.hash(), s("abc").hash());
    assert_eq!(abc.hash(), 193_485_963);
    assert_eq!(s("").hash(), DJB2_SEED);
    assert_eq!(s("").hash(), 5381);
    assert_eq!(s("a").hash(), 5381 * 33 + 97);
    assert_ne!(s("ab").hash(), s("ba").hash());
}

#[test]
fn string_digest_wraps() {
    let long = "z".repeat(64);
    let mut expected: usize = 5381;
    for _ in 0..64 {
        expected = expected.wrapping_mul(33).wrapping_add(b'z' as usize);
    }
    assert_eq!(long.hash(), expected);
}

#[test]
fn string_digest_uses_utf8_bytes() {
    let e = s("\u{e9}");
    let expected = (5381usize * 33 + 0xc3) * 33 + 0xa9;
    assert_eq!(e.hash(), expected);
}

#[test]
fn integer_digest_is_identity() {
    assert_eq!(42usize.hash(), 42);
    assert_eq!(0usize.hash(), 0);
    assert_eq!(usize::MAX.hash(), usize::MAX);
}

#[test]
fn same_key_follows_equality() {
    assert!(s("x").same_key(&s("x")));
    assert!(!s("x").same_key(&s("y")));
    assert!(7usize.same_key(&7));
    assert!(!7usize.same_key(&8));
}
