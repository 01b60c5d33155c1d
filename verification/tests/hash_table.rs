use a_star::hash_table::{HashTable, HashTableError};
use a_star::keys::fnv1a_bytes;

#[test]
fn test_hash_table() {
    let mut table = HashTable::<i32, &str>::new();

    // Table should be empty initially
    assert!(table.is_empty());
    assert_eq!(table.len(), 0);

    // Insert a key-value pair
    assert!(table.insert(1, "one").is_ok());
    assert_eq!(table.len(), 1);
    assert!(!table.is_empty());

    // Insert another key-value
    assert!(table.insert(2, "two").is_ok());

    // Test get()
    assert_eq!(table.get(&1).unwrap(), &"one");
    assert_eq!(table.get(&2).unwrap(), &"two");

    // Test contains()
    assert!(table.contains(&1));
    assert!(table.contains(&2));
    assert!(!table.contains(&3));

    // Test updating existing key
    assert!(table.insert(1, "uno").is_ok());
    assert_eq!(table.get(&1).unwrap(), &"uno");

    // Test remove
    assert!(table.remove(&1).is_ok());
    assert!(!table.contains(&1));
    assert_eq!(table.remove(&1).unwrap_err(), HashTableError::KeyNotFound);

    // Test get for a non-existent key
    assert_eq!(table.get(&99).unwrap_err(), HashTableError::KeyNotFound);

    // Test for duplicate key
    assert!(table.insert(1, "uno").is_ok());
    assert!(table.insert(1, "dos").is_ok());
}

#[test]
fn test_round_trip_distinct_keys() {
    // every inserted key is retrievable with its last-written value
    let mut table = HashTable::<i32, i32>::new();
    for k in 0..50 {
        assert!(table.insert(k, k * 10).is_ok());
    }
    for k in 0..50 {
        assert!(table.contains(&k));
        assert_eq!(table.get(&k).unwrap(), &(k * 10));
    }
    assert!(!table.contains(&50));
    assert!(!table.contains(&-1));
    assert_eq!(table.len(), 50);
}

#[test]
fn test_tombstone_reinsert() {
    // after remove(k) then insert(k, v2), get(k) yields v2
    let mut table = HashTable::<String, u64>::new();
    assert!(table.insert(String::from("key"), 1).is_ok());
    assert!(table.remove(&String::from("key")).is_ok());
    assert_eq!(
        table.get(&String::from("key")).unwrap_err(),
        HashTableError::KeyNotFound
    );
    assert!(table.insert(String::from("key"), 2).is_ok());
    assert_eq!(table.get(&String::from("key")).unwrap(), &2);
}

#[test]
fn test_table_full() {
    let mut table = HashTable::<u64, u64>::with_capacity(2);
    assert!(table.insert(10, 0).is_ok());
    assert!(table.insert(11, 1).is_ok());
    assert_eq!(table.insert(12, 2).unwrap_err(), HashTableError::TableFull);
    // overwriting an existing key still succeeds in a full table
    assert!(table.insert(10, 7).is_ok());
    assert_eq!(table.get(&10).unwrap(), &7);
    // removing frees a slot again
    assert!(table.remove(&11).is_ok());
    assert!(table.insert(12, 2).is_ok());
    assert_eq!(table.get(&12).unwrap(), &2);
}

#[test]
fn test_string_keys_probe_chains() {
    let mut table = HashTable::<String, usize>::with_capacity(3);
    assert!(table.insert(String::from("a"), 1).is_ok());
    assert!(table.insert(String::from("b"), 2).is_ok());
    assert!(table.insert(String::from("c"), 3).is_ok());
    // the table is full: the probe chains still find every key
    assert_eq!(table.get(&String::from("a")).unwrap(), &1);
    assert_eq!(table.get(&String::from("b")).unwrap(), &2);
    assert_eq!(table.get(&String::from("c")).unwrap(), &3);
    // removing one key must not break the chains of the others
    assert!(table.remove(&String::from("b")).is_ok());
    assert_eq!(table.get(&String::from("a")).unwrap(), &1);
    assert_eq!(table.get(&String::from("c")).unwrap(), &3);
    assert!(!table.contains(&String::from("b")));
}

#[test]
fn test_get_mut_updates_value() {
    let mut table = HashTable::<i32, i32>::new();
    assert!(table.insert(5, 100).is_ok());
    {
        let v = table.get_mut(&5).unwrap();
        *v += 1;
    }
    assert_eq!(table.get(&5).unwrap(), &101);
    assert!(table.get_mut(&6).is_err());
}

#[test]
fn test_fnv1a_known_values() {
    // reference values of 64-bit FNV-1a
    assert_eq!(fnv1a_bytes(b""), 0xcbf29ce484222325);
    assert_eq!(fnv1a_bytes(b"a"), 0xaf63dc4c8601ec8c);
    assert_eq!(fnv1a_bytes(b"foobar"), 0x85944171f73967e8);
}
