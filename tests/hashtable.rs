use hashtable::HashTable;
use hashtable::HashTableError;

#[test]
fn growing_works() {
    const ELEMENTS: usize = 51;

    let mut hash_table = HashTable::<usize, usize>::new().unwrap();

    for i in 0..ELEMENTS {
        hash_table.set(0xDEAD + i, 0xBEEF + i).unwrap();
    }

    for i in 0..ELEMENTS {
        assert_eq!(*hash_table.get(&(0xDEAD + i)).unwrap(), 0xBEEF + i);
    }
}

#[test]
fn set_then_get_one_pair() {
    let mut t = HashTable::<u8, u8>::new().unwrap();
    assert_eq!(t.set(3, 8), Ok::<(), HashTableError>(()));
    assert_eq!(t.get(&3).map(|v| *v), Some(8));
}

#[test]
fn missing_key_is_not_found() {
    let mut t = HashTable::<u32, u32>::new().unwrap();
    assert!(t.get(&7).is_none());
    for k in 0..20u32 {
        t.set(k, k * 2).unwrap();
    }
    assert!(t.get(&20).is_none());
    assert!(t.get(&1000).is_none());
}

#[test]
fn duplicate_key_returns_first_value() {
    let mut t = HashTable::<String, u32>::new().unwrap();
    t.set("a".to_string(), 1).unwrap();
    t.set("a".to_string(), 2).unwrap();
    assert_eq!(*t.get(&"a".to_string()).unwrap(), 1);
}

#[test]
fn value_can_be_changed_through_get() {
    let mut t = HashTable::<u64, String>::new().unwrap();
    t.set(5, "five".to_string()).unwrap();
    t.get(&5).unwrap().push_str("!");
    assert_eq!(t.get(&5).unwrap().as_str(), "five!");
}

#[test]
fn string_keys_survive_growth() {
    let mut t = HashTable::<String, usize>::new().unwrap();
    for i in 0..100usize {
        t.set(format!("key{}", i), i).unwrap();
    }
    for i in 0..100usize {
        assert_eq!(*t.get(&format!("key{}", i)).unwrap(), i);
    }
    assert!(t.get(&"key100".to_string()).is_none());
}
