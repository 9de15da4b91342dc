use robin_hood::{hash_key, CreateError, Entry, InsertError, InsertOutcome, Table};

/// Keys whose hash codes all fall in slot `home` of a table of `cap` slots.
fn colliding_keys(cap: usize, home: usize, n: usize) -> Vec<u32> {
    (1u32..).filter(|k| hash_key(*k) % cap == home).take(n).collect()
}

/// Checks the placement of every entry and that no key appears twice.
fn check_slots(t: &Table) {
    let cap = t.capacity();
    let mut keys = Vec::new();
    let mut count = 0;
    for i in 0..cap {
        if let Some(e) = t.entry(i) {
            assert_eq!(e.hash, hash_key(e.key));
            assert_eq!(i, (e.hash % cap + e.probe_distance) % cap);
            assert!(!keys.contains(&e.key));
            keys.push(e.key);
            count += 1;
        }
    }
    assert_eq!(count, t.len());
}

#[test]
fn create_rejects_zero_capacity() {
    assert_eq!(Table::create(0, 3, 4).err(), Some(CreateError::ZeroCapacity));
}

#[test]
fn create_rejects_bad_load_factor() {
    assert_eq!(Table::create(4, 0, 4).err(), Some(CreateError::InvalidLoadFactor));
    assert_eq!(Table::create(4, 5, 4).err(), Some(CreateError::InvalidLoadFactor));
    assert_eq!(Table::create(4, 1, 0).err(), Some(CreateError::InvalidLoadFactor));
}

#[test]
fn init_rejects_bad_input() {
    assert_eq!(Table::init(0, 3, 4).err(), Some(CreateError::ZeroCapacity));
    assert_eq!(Table::init(4, 0, 4).err(), Some(CreateError::InvalidLoadFactor));
    assert_eq!(Table::init(4, 5, 4).err(), Some(CreateError::InvalidLoadFactor));
    let t = Table::init(5, 1, 2).unwrap();
    assert_eq!((t.capacity(), t.max_load_factor()), (5, (1, 2)));
}

#[test]
fn create_accepts_full_load_factor() {
    let t = Table::create(4, 4, 4).unwrap();
    assert_eq!(t.capacity(), 4);
    assert_eq!(t.len(), 0);
    assert_eq!(t.max_load_factor(), (4, 4));
}

#[test]
fn init_builds_an_empty_table() {
    let t = Table::init(10, 3, 4).unwrap();
    assert_eq!(t.capacity(), 10);
    assert_eq!(t.len(), 0);
    assert_eq!(t.max_load_factor(), (3, 4));
    assert_eq!(t.lookup(0), None);
}

#[test]
fn insert_into_new_table() {
    let mut t = Table::init(10, 3, 4).unwrap();
    assert_eq!(t.insert(0, 0), Ok(InsertOutcome::Inserted));
    assert_eq!(t.lookup(0), Some(0));
    assert_eq!(t.len(), 1);
}

#[test]
fn round_trip_unique_keys() {
    let mut t = Table::create(2, 3, 4).unwrap();
    for k in 0u32..200 {
        assert_eq!(t.insert(k, k * 3 + 1), Ok(InsertOutcome::Inserted));
    }
    for k in 0u32..200 {
        assert_eq!(t.lookup(k), Some(k * 3 + 1));
    }
    assert_eq!(t.lookup(200), None);
    assert_eq!(t.len(), 200);
}

#[test]
fn overwrite_reports_update() {
    let mut t = Table::create(8, 3, 4).unwrap();
    assert_eq!(t.insert(5, 50), Ok(InsertOutcome::Inserted));
    assert_eq!(t.insert(6, 60), Ok(InsertOutcome::Inserted));
    assert_eq!(t.insert(5, 55), Ok(InsertOutcome::Updated));
    assert_eq!(t.len(), 2);
    assert_eq!(t.lookup(5), Some(55));
    assert_eq!(t.lookup(6), Some(60));
}

#[test]
fn delete_then_lookup() {
    let mut t = Table::create(8, 3, 4).unwrap();
    t.insert(1, 10).unwrap();
    t.insert(2, 20).unwrap();
    t.insert(3, 30).unwrap();
    assert_eq!(t.delete(2), Some(20));
    assert_eq!(t.lookup(2), None);
    assert_eq!(t.len(), 2);
    assert_eq!(t.lookup(1), Some(10));
    assert_eq!(t.lookup(3), Some(30));
}

#[test]
fn delete_absent_key() {
    let mut t = Table::create(4, 3, 4).unwrap();
    t.insert(1, 10).unwrap();
    assert_eq!(t.delete(9), None);
    assert_eq!(t.len(), 1);
    assert_eq!(t.delete(1), Some(10));
    assert_eq!(t.delete(1), None);
    assert_eq!(t.len(), 0);
}

#[test]
fn invariant_after_mixed_operations() {
    let mut t = Table::create(3, 1, 1).unwrap();
    for k in 0u32..60 {
        t.insert(k * 7, k).unwrap();
        check_slots(&t);
    }
    for k in (0u32..60).step_by(2) {
        assert_eq!(t.delete(k * 7), Some(k));
        check_slots(&t);
    }
    for k in 0u32..60 {
        let expected = if k % 2 == 0 { None } else { Some(k) };
        assert_eq!(t.lookup(k * 7), expected);
    }
}

#[test]
fn load_factor_bound_after_each_insert() {
    let mut t = Table::create(1, 3, 4).unwrap();
    for k in 0u32..100 {
        t.insert(k, k).unwrap();
        assert!(t.len() * 4 <= t.capacity() * 3);
    }
}

#[test]
fn grow_keeps_all_entries() {
    let mut t = Table::create(2, 1, 2).unwrap();
    let mut caps = Vec::new();
    for k in 0u32..50 {
        t.insert(k + 1000, k).unwrap();
        caps.push(t.capacity());
    }
    assert!(t.capacity() >= 100);
    assert!(caps.windows(2).any(|w| w[1] > w[0]));
    for k in 0u32..50 {
        assert_eq!(t.lookup(k + 1000), Some(k));
    }
    check_slots(&t);
}

#[test]
fn grow_by_doubling() {
    let mut t = Table::create(1, 1, 4).unwrap();
    assert_eq!(t.insert(1, 1), Ok(InsertOutcome::Inserted));
    // one entry needs four slots under a load factor of 1/4
    assert_eq!(t.capacity(), 4);
    assert_eq!(t.insert(2, 2), Ok(InsertOutcome::Inserted));
    assert_eq!(t.capacity(), 8);
}

#[test]
fn growth_beyond_usize_is_exhaustion() {
    let mut t = Table::create(1, 1, usize::MAX).unwrap();
    assert_eq!(t.insert(1, 1), Err(InsertError::CapacityExhausted));
    assert_eq!(t.capacity(), 1);
    assert_eq!(t.len(), 0);
    assert_eq!(t.lookup(1), None);
}

#[test]
fn colliding_keys_probe_in_order_then_grow() {
    let keys = colliding_keys(4, 0, 4);
    assert_eq!(keys, vec![2, 6, 10, 11]);
    let mut t = Table::create(4, 3, 4).unwrap();
    t.insert(keys[0], 10).unwrap();
    t.insert(keys[1], 20).unwrap();
    t.insert(keys[2], 30).unwrap();
    assert_eq!(t.capacity(), 4);
    assert_eq!(t.len(), 3);
    for (slot, (key, value)) in [(keys[0], 10), (keys[1], 20), (keys[2], 30)].iter().enumerate() {
        let e: Entry = t.entry(slot).unwrap();
        assert_eq!((e.key, e.value, e.probe_distance), (*key, *value, slot));
    }
    assert_eq!(t.lookup(keys[0]), Some(10));
    assert_eq!(t.lookup(keys[1]), Some(20));
    assert_eq!(t.lookup(keys[2]), Some(30));
    assert_eq!(t.insert(keys[3], 40), Ok(InsertOutcome::Inserted));
    assert_eq!(t.capacity(), 8);
    assert_eq!(t.len(), 4);
    assert_eq!(t.lookup(keys[0]), Some(10));
    assert_eq!(t.lookup(keys[1]), Some(20));
    assert_eq!(t.lookup(keys[2]), Some(30));
    assert_eq!(t.lookup(keys[3]), Some(40));
    check_slots(&t);
}

#[test]
fn delete_shifts_back_the_next_entry() {
    let keys = colliding_keys(4, 0, 2);
    let (a, b) = (keys[0], keys[1]);
    let mut t = Table::create(4, 3, 4).unwrap();
    t.insert(a, 1).unwrap();
    t.insert(b, 2).unwrap();
    assert_eq!(t.entry(0).unwrap().probe_distance, 0);
    assert_eq!(t.entry(1).unwrap().probe_distance, 1);
    assert_eq!(t.delete(a), Some(1));
    let e = t.entry(0).unwrap();
    assert_eq!((e.key, e.probe_distance), (b, 0));
    assert!(t.entry(1).is_none());
    assert_eq!(t.lookup(b), Some(2));
    assert_eq!(t.lookup(a), None);
}

#[test]
fn richer_entry_is_displaced() {
    // a key at home 1 sits in slot 1; two keys from home 0 then arrive
    let from_one = colliding_keys(8, 1, 1)[0];
    let from_zero = colliding_keys(8, 0, 2);
    let mut t = Table::create(8, 1, 1).unwrap();
    t.insert(from_one, 1).unwrap();
    t.insert(from_zero[0], 2).unwrap();
    t.insert(from_zero[1], 3).unwrap();
    // the second key from home 0 is poorer at slot 1 and takes it
    let e1 = t.entry(1).unwrap();
    assert_eq!((e1.key, e1.probe_distance), (from_zero[1], 1));
    let e2 = t.entry(2).unwrap();
    assert_eq!((e2.key, e2.probe_distance), (from_one, 1));
    check_slots(&t);
}

#[test]
fn table_index_of_keys() {
    let mut t = Table::create(8, 3, 4).unwrap();
    t.insert(3, 30).unwrap();
    let i = t.get_table_idx(3, hash_key(3)).unwrap();
    assert_eq!(t.entry(i).unwrap().key, 3);
    assert_eq!(t.get_table_idx(4, hash_key(4)), None);
}

#[test]
fn full_table_lookup_of_absent_key() {
    let mut t = Table::create(2, 1, 1).unwrap();
    t.insert(1, 1).unwrap();
    t.insert(2, 2).unwrap();
    assert_eq!(t.capacity(), 2);
    assert_eq!(t.lookup(3), None);
    assert_eq!(t.delete(3), None);
    assert_eq!(t.lookup(1), Some(1));
}
