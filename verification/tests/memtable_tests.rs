use aidb::lookup::Lookup;
use aidb::memtable::{MemTable, ValueType};

#[test]
fn test_memtable_new() {
    let memtable = MemTable::new(100);
    assert_eq!(memtable.start_sequence(), 100);
    assert!(memtable.is_empty());
    assert_eq!(memtable.len(), 0);
}

#[test]
fn test_memtable_put_and_get() {
    let mut memtable = MemTable::new(1);

    memtable.put(b"key1", b"value1", 1);
    memtable.put(b"key2", b"value2", 2);

    assert_eq!(memtable.get(b"key1", 100), Some(b"value1".to_vec()));
    assert_eq!(memtable.get(b"key2", 100), Some(b"value2".to_vec()));
    assert_eq!(memtable.get(b"key3", 100), None);

    assert_eq!(memtable.len(), 2);
    assert!(!memtable.is_empty());
}

#[test]
fn test_memtable_delete() {
    let mut memtable = MemTable::new(1);

    memtable.put(b"key1", b"value1", 1);
    assert_eq!(memtable.get(b"key1", 100), Some(b"value1".to_vec()));

    memtable.delete(b"key1", 2);
    assert_eq!(memtable.get(b"key1", 100), None);

    // Entry still exists (as tombstone)
    assert_eq!(memtable.len(), 2);
}

#[test]
fn test_memtable_mvcc() {
    let mut memtable = MemTable::new(1);

    memtable.put(b"key1", b"value1", 1);
    memtable.put(b"key1", b"value2", 2);
    memtable.put(b"key1", b"value3", 3);

    // Should get the version at sequence 1
    assert_eq!(memtable.get(b"key1", 1), Some(b"value1".to_vec()));

    // Should get the version at sequence 2
    assert_eq!(memtable.get(b"key1", 2), Some(b"value2".to_vec()));

    // Should get the latest version
    assert_eq!(memtable.get(b"key1", 100), Some(b"value3".to_vec()));
}

#[test]
fn test_memtable_size() {
    let mut memtable = MemTable::new(1);

    let initial_size = memtable.approximate_size();
    assert_eq!(initial_size, 0);

    memtable.put(b"key1", b"value1", 1);
    assert!(memtable.approximate_size() > initial_size);

    let size_after_first = memtable.approximate_size();
    memtable.put(b"key2", b"value2", 2);
    assert!(memtable.approximate_size() > size_after_first);
}

#[test]
fn test_memtable_iterator() {
    let mut memtable = MemTable::new(1);

    memtable.put(b"key1", b"value1", 1);
    memtable.put(b"key2", b"value2", 2);
    memtable.put(b"key3", b"value3", 3);

    let entries: Vec<_> = memtable.entries();
    assert_eq!(entries.len(), 3);

    // Verify keys are in sorted order
    assert_eq!(entries[0].user_key(), b"key1");
    assert_eq!(entries[1].user_key(), b"key2");
    assert_eq!(entries[2].user_key(), b"key3");

    // the iterator hands the same entries out, one after the other
    let mut iter = memtable.iter();
    assert_eq!(iter.peek().unwrap().user_key(), b"key1");
    let mut seen = Vec::new();
    while let Some(entry) = iter.next() {
        seen.push(entry.user_key().to_vec());
    }
    assert_eq!(seen, vec![b"key1".to_vec(), b"key2".to_vec(), b"key3".to_vec()]);
    assert!(iter.peek().is_none());
}

#[test]
fn test_memtable_overwrite() {
    let mut memtable = MemTable::new(1);

    memtable.put(b"key1", b"value1", 1);
    memtable.put(b"key1", b"value2", 2);

    // Should return the latest value
    assert_eq!(memtable.get(b"key1", 100), Some(b"value2".to_vec()));

    // But both entries exist in the table
    assert_eq!(memtable.len(), 2);
}

#[test]
fn test_memtable_exact_size_and_order() {
    let mut memtable = MemTable::new(1);
    memtable.put(b"key", b"value", 1);
    assert_eq!(memtable.approximate_size(), 3 + 5 + 16);
    memtable.delete(b"ab", 2);
    assert_eq!(memtable.approximate_size(), 3 + 5 + 16 + 2 + 16);

    // newer versions come first, and a value before a tombstone
    let mut memtable = MemTable::new(1);
    memtable.put(b"k", b"old", 5);
    memtable.delete(b"k", 9);
    memtable.put(b"k", b"same", 9);
    memtable.put(b"j", b"x", 7);
    let entries = memtable.entries();
    let seen: Vec<(Vec<u8>, u64, ValueType)> =
        entries.iter().map(|e| (e.user_key().to_vec(), e.sequence(), e.value_type())).collect();
    assert_eq!(
        seen,
        vec![
            (b"j".to_vec(), 7, ValueType::Value),
            (b"k".to_vec(), 9, ValueType::Value),
            (b"k".to_vec(), 9, ValueType::Deletion),
            (b"k".to_vec(), 5, ValueType::Value),
        ]
    );
    assert_eq!(entries[1].value(), b"same");
    assert_eq!(entries[1].key().sequence(), 9);
}

#[test]
fn test_memtable_find_tells_a_tombstone_from_nothing() {
    let mut memtable = MemTable::new(1);
    memtable.put(b"k", b"v", 3);
    memtable.delete(b"k", 5);
    memtable.put(b"empty", b"", 6);
    assert_eq!(memtable.find(b"k", 2), Lookup::Missing);
    assert_eq!(memtable.find(b"k", 3), Lookup::Found(b"v".to_vec()));
    assert_eq!(memtable.find(b"k", 4), Lookup::Found(b"v".to_vec()));
    assert_eq!(memtable.find(b"k", 5), Lookup::Deleted);
    assert_eq!(memtable.find(b"k", u64::MAX), Lookup::Deleted);
    assert_eq!(memtable.find(b"other", u64::MAX), Lookup::Missing);
    // a longer key and a shorter key are other keys
    assert_eq!(memtable.find(b"k\0", u64::MAX), Lookup::Missing);
    assert_eq!(memtable.find(b"", u64::MAX), Lookup::Missing);
    // an empty value is a value
    assert_eq!(memtable.get(b"empty", 6), Some(Vec::new()));
    // a snapshot does not see what was written behind it
    memtable.put(b"k", b"new", 8);
    assert_eq!(memtable.find(b"k", 5), Lookup::Deleted);
    assert_eq!(memtable.find(b"k", 8), Lookup::Found(b"new".to_vec()));
}

#[test]
fn test_memtable_key_of_zero_bytes() {
    let mut memtable = MemTable::new(1);
    memtable.put(&[0, 0, 0], b"zeros", 1);
    memtable.put(&[0, 0], b"fewer", 2);
    assert_eq!(memtable.get(&[0, 0, 0], 9), Some(b"zeros".to_vec()));
    assert_eq!(memtable.get(&[0, 0], 9), Some(b"fewer".to_vec()));
    assert_eq!(memtable.get(&[0], 9), None);
}
