use hash_table::hashing::{djb2_bytes, Hashable};
use hash_table::table::{HashTable, INITIAL_CAPACITY};

fn s(x: &str) -> String {
    x.to_string()
}

#[test]
fn scenario_phone_book_grows_to_23() {
    let mut t: HashTable<String, String> = HashTable::new();
    assert_eq!(t.capacity(), 11);
    t.insert(s("a"), s("2983798321"));
    assert_eq!(t.get(&s("a")), Some(&s("2983798321")));
    assert_eq!(t.get(&s("b")), None);
    for i in 0..11 {
        t.insert(format!("key{}", i), format!("value{}", i));
    }
    assert_eq!(t.len(), 12);
    assert_eq!(t.capacity(), 23);
    assert_eq!(t.get(&s("a")), Some(&s("2983798321")));
    for i in 0..11 {
        assert_eq!(t.get(&format!("key{}", i)), Some(&format!("value{}", i)));
    }
}

#[test]
fn round_trip_keeps_last_value() {
    let mut t: HashTable<String, u32> = HashTable::new();
    let pairs = [("x", 1), ("y", 2), ("x", 3), ("z", 4), ("y", 5)];
    for (k, v) in pairs.iter() {
        t.insert(s(k), *v);
    }
    assert_eq!(t.get(&s("x")), Some(&3));
    assert_eq!(t.get(&s("y")), Some(&5));
    assert_eq!(t.get(&s("z")), Some(&4));
    assert_eq!(t.len(), 3);
}

#[test]
fn overwrite_keeps_count() {
    let mut t: HashTable<String, String> = HashTable::new();
    t.insert(s("k"), s("first"));
    assert_eq!(t.len(), 1);
    t.insert(s("k"), s("second"));
    assert_eq!(t.len(), 1);
    assert_eq!(t.capacity(), INITIAL_CAPACITY);
    assert_eq!(t.get(&s("k")), Some(&s("second")));
}

#[test]
fn growth_preserves_all_entries() {
    let mut t: HashTable<usize, usize> = HashTable::new();
    for k in 0..200usize {
        t.insert(k * 7, k + 1000);
        assert!(t.len() < t.capacity());
    }
    assert_eq!(t.len(), 200);
    assert!(t.capacity() > 200);
    for k in 0..200usize {
        assert_eq!(t.get(&(k * 7)), Some(&(k + 1000)));
    }
    assert_eq!(t.get(&1), None);
}

#[test]
fn capacities_follow_doubling_plus_one() {
    let mut t: HashTable<usize, ()> = HashTable::new();
    let mut seen = vec![t.capacity()];
    for k in 0..60usize {
        t.insert(k, ());
        if *seen.last().unwrap() != t.capacity() {
            seen.push(t.capacity());
        }
        assert!(t.len() < t.capacity());
    }
    assert_eq!(seen, vec![11, 23, 47, 95]);
}

#[test]
fn growth_happens_before_count_reaches_capacity() {
    let mut t: HashTable<usize, usize> = HashTable::new();
    for k in 0..10usize {
        t.insert(k, k);
    }
    assert_eq!(t.len(), 10);
    assert_eq!(t.capacity(), 11);
    t.insert(10, 10);
    assert_eq!(t.len(), 11);
    assert_eq!(t.capacity(), 23);
}

#[test]
fn not_found_on_any_table() {
    let mut t: HashTable<String, i32> = HashTable::new();
    assert_eq!(t.get(&s("missing")), None);
    assert!(t.get_mut(&s("missing")).is_none());
    assert_eq!(t.get_index(&s("missing")), None);
    for i in 0..30 {
        t.insert(format!("k{}", i), i);
    }
    assert_eq!(t.get(&s("missing")), None);
    assert!(t.get_mut(&s("missing")).is_none());
    assert_eq!(t.get_index(&s("missing")), None);
    assert_eq!(t.len(), 30);
}

#[test]
fn get_mut_changes_only_that_value() {
    let mut t: HashTable<String, i32> = HashTable::new();
    t.insert(s("a"), 1);
    t.insert(s("b"), 2);
    if let Some(v) = t.get_mut(&s("a")) {
        *v += 40;
    } else {
        panic!("key a is present");
    }
    assert_eq!(t.get(&s("a")), Some(&41));
    assert_eq!(t.get(&s("b")), Some(&2));
    assert_eq!(t.len(), 2);
}

#[test]
fn string_hash_is_djb2() {
    assert_eq!(s("a").hash(), 177670);
    assert_eq!(s("b").hash(), 177671);
    assert_eq!(s("").hash(), 5381);
    assert_eq!(s("Hello, World").hash() as u64, 13594750406947596493u64);
    assert_eq!(s("Hello, World").hash(), s("Hello, World").hash());
    assert_eq!(djb2_bytes("a".as_bytes()), 177670);
}

#[test]
fn string_hash_wraps_on_overflow() {
    let long = "z".repeat(64);
    let mut expected: u64 = 5381;
    for b in long.bytes() {
        expected = expected.wrapping_mul(33).wrapping_add(b as u64);
    }
    assert_eq!(long.hash() as u64, expected);
}

#[test]
fn usize_hash_is_identity() {
    assert_eq!(0usize.hash(), 0);
    assert_eq!(12345usize.hash(), 12345);
    assert!(7usize.key_eq(&7));
    assert!(!7usize.key_eq(&8));
    assert!(s("q").key_eq(&s("q")));
    assert!(!s("q").key_eq(&s("r")));
}

#[test]
fn collisions_probe_linearly_and_wrap() {
    let mut t: HashTable<usize, &str> = HashTable::new();
    t.insert(10, "ten");
    t.insert(21, "twenty-one");
    t.insert(0, "zero");
    t.insert(11, "eleven");
    assert_eq!(t.get_index(&10), Some(10));
    assert_eq!(t.get_index(&21), Some(0));
    assert_eq!(t.get_index(&0), Some(1));
    assert_eq!(t.get_index(&11), Some(2));
    assert_eq!(t.slot(0), Some((&21, &"twenty-one")));
    assert_eq!(t.slot(3), None);
    assert_eq!(t.get(&11), Some(&"eleven"));
    assert_eq!(t.get(&22), None);
}

#[test]
fn extend_rehashes_into_larger_table() {
    let mut t: HashTable<usize, usize> = HashTable::new();
    t.insert(5, 50);
    t.insert(16, 160);
    assert_eq!(t.get_index(&16), Some(6));
    t.extend();
    assert_eq!(t.capacity(), 23);
    assert_eq!(t.len(), 2);
    assert_eq!(t.get_index(&16), Some(16));
    assert_eq!(t.get(&5), Some(&50));
    assert_eq!(t.get(&16), Some(&160));
}

#[test]
fn empty_string_key() {
    let mut t: HashTable<String, i32> = HashTable::new();
    t.insert(s(""), 9);
    assert_eq!(t.get(&s("")), Some(&9));
    assert_eq!(t.get_index(&s("")), Some(5381 % 11));
}

#[test]
fn dump_order_shows_every_cell() {
    let mut t: HashTable<usize, usize> = HashTable::new();
    t.insert(3, 30);
    let mut taken = 0;
    for i in 0..t.capacity() {
        match t.slot(i) {
            Some((k, v)) => {
                assert_eq!(i, 3);
                assert_eq!((*k, *v), (3, 30));
                taken += 1;
            }
            None => {}
        }
    }
    assert_eq!(taken, 1);
}
