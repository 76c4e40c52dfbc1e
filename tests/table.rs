use hashtable::{InsertError, KeyArena, Lookup, SameHandle, Table};

fn h(key: usize) -> u32 {
    (key as u32).wrapping_mul(2654435761)
}

#[test]
fn single_insert_then_lookup() {
    let mut t = Table::new(SameHandle);
    assert_eq!(t.insert(0xDEAD, h(0xDEAD), 0xBEEF), Ok(()));
    assert_eq!(t.get(0xDEAD, h(0xDEAD)), Lookup::Found(0xBEEF));
    assert_eq!(t.len(), 1);
}

#[test]
fn fifty_one_sequential_keys() {
    let mut t = Table::new(SameHandle);
    for i in 0..51usize {
        assert_eq!(t.insert(0xDEAD + i, h(0xDEAD + i), 0xBEEF + i), Ok(()));
    }
    assert_eq!(t.len(), 51);
    for i in 0..51usize {
        assert_eq!(t.get(0xDEAD + i, h(0xDEAD + i)), Lookup::Found(0xBEEF + i));
    }
}

#[test]
fn capacity_doubles_past_three_quarters() {
    let mut t = Table::new(SameHandle);
    assert_eq!(t.capacity_now(), 8);
    for i in 0..6usize {
        t.insert(i, i as u32, i).unwrap();
    }
    assert_eq!(t.capacity_now(), 8);
    t.insert(6, 6, 6).unwrap();
    assert_eq!(t.capacity_now(), 16);
    for i in 7..13usize {
        t.insert(i, i as u32, i).unwrap();
    }
    assert_eq!(t.capacity_now(), 32);
    for i in 0..13usize {
        assert_eq!(t.get(i, i as u32), Lookup::Found(i));
    }
}

#[test]
fn same_hash_for_all_keys() {
    let mut t = Table::new(SameHandle);
    for i in 0..30usize {
        t.insert(i, 42, 100 + i).unwrap();
    }
    for i in 0..30usize {
        assert_eq!(t.get(i, 42), Lookup::Found(100 + i));
    }
    assert_eq!(t.get(30, 42), Lookup::NotFound);
}

#[test]
fn absent_key_not_found() {
    let mut t = Table::new(SameHandle);
    assert_eq!(t.get(1, 1), Lookup::NotFound);
    t.insert(1, 1, 10).unwrap();
    assert_eq!(t.get(2, 1), Lookup::NotFound);
    assert_eq!(t.get(2, 2), Lookup::NotFound);
}

#[test]
fn duplicate_keys_lookup_finds_first() {
    // Handles 0, 1 and 2 all refer to the key 3.
    let cmp = KeyArena::new(vec![3, 3, 3], 9);
    let mut t = Table::new(cmp);
    assert_eq!(t.insert(0, h(3), 111), Ok(()));
    assert_eq!(t.insert(1, h(3), 222), Ok(()));
    assert_eq!(t.len(), 2);
    assert_eq!(t.get(2, h(3)), Lookup::Found(111));
    assert_eq!(t.get(1, h(3)), Lookup::Found(111));
}

#[test]
fn arena_keys_survive_growth() {
    let keys: Vec<u64> = (0..40u64).map(|k| k * 1000).collect();
    let mut t = Table::new(KeyArena::new(keys, 1));
    for i in 0..40usize {
        assert_eq!(t.insert(i, h(i * 1000), i + 500), Ok(()));
    }
    assert_eq!(t.capacity_now(), 64);
    for i in 0..40usize {
        assert_eq!(t.get(i, h(i * 1000)), Lookup::Found(i + 500));
    }
}

#[test]
fn comparator_failure_on_insert_is_returned() {
    let cmp = KeyArena::new(vec![10, 20], 77);
    let mut t = Table::new(cmp);
    t.insert(0, 3, 10).unwrap();
    // Handle 5 is past the arena: comparing it with the stored key fails.
    assert_eq!(t.insert(5, 3, 50), Err(InsertError::Comparator(77)));
    assert_eq!(t.len(), 1);
    assert_eq!(t.get(0, 3), Lookup::Found(10));
}

#[test]
fn comparator_failure_on_lookup_is_returned() {
    let cmp = KeyArena::new(vec![10, 20], 4);
    let mut t = Table::new(cmp);
    t.insert(0, 3, 10).unwrap();
    assert_eq!(t.get(5, 3), Lookup::Failed(4));
    assert_eq!(t.len(), 1);
    // The bucket of hash 4 holds no entry, so nothing is compared.
    assert_eq!(t.get(5, 4), Lookup::NotFound);
}

#[test]
fn empty_bucket_compares_nothing() {
    let cmp = KeyArena::new(vec![10, 20], 4);
    let mut t = Table::new(cmp);
    assert_eq!(t.insert(5, 3, 50), Ok(()));
    assert_eq!(t.len(), 1);
}
