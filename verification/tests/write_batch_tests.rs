use aidb::write_batch::{decode_ops, WriteBatch, WriteOp};

#[test]
fn test_write_batch_new() {
    let batch = WriteBatch::new();
    assert!(batch.is_empty());
    assert_eq!(batch.len(), 0);
}

#[test]
fn test_write_batch_put() {
    let mut batch = WriteBatch::new();
    batch.put(b"key1", b"value1");
    batch.put(b"key2", b"value2");

    assert_eq!(batch.len(), 2);
    assert!(!batch.is_empty());
    assert!(batch.approximate_size() > 0);
}

#[test]
fn test_write_batch_delete() {
    let mut batch = WriteBatch::new();
    batch.delete(b"key1");
    batch.delete(b"key2");

    assert_eq!(batch.len(), 2);
    assert!(!batch.is_empty());
}

#[test]
fn write_batch_test_write_batch_mixed_operations() {
    let mut batch = WriteBatch::new();
    batch.put(b"key1", b"value1");
    batch.delete(b"key2");
    batch.put(b"key3", b"value3");

    assert_eq!(batch.len(), 3);
}

#[test]
fn test_write_batch_clear() {
    let mut batch = WriteBatch::new();
    batch.put(b"key1", b"value1");
    batch.put(b"key2", b"value2");

    assert_eq!(batch.len(), 2);

    batch.clear();

    assert!(batch.is_empty());
    assert_eq!(batch.len(), 0);
    assert_eq!(batch.approximate_size(), 0);
}

#[test]
fn test_write_batch_approximate_size() {
    let mut batch = WriteBatch::new();
    let initial_size = batch.approximate_size();

    batch.put(b"key", b"value");
    let after_put_size = batch.approximate_size();

    assert!(after_put_size > initial_size);
}

#[test]
fn test_write_batch_iter() {
    let mut batch = WriteBatch::new();
    batch.put(b"key1", b"value1");
    batch.delete(b"key2");
    batch.put(b"key3", b"value3");

    let ops: Vec<_> = batch.iter().iter().collect();
    assert_eq!(ops.len(), 3);

    match &ops[0] {
        WriteOp::Put { key, value } => {
            assert_eq!(key, b"key1");
            assert_eq!(value, b"value1");
        }
        _ => panic!("Expected Put operation"),
    }

    match &ops[1] {
        WriteOp::Delete { key } => {
            assert_eq!(key, b"key2");
        }
        _ => panic!("Expected Delete operation"),
    }
}

#[test]
fn test_write_batch_exact_size() {
    let mut batch = WriteBatch::new();
    batch.put(b"key", b"value");
    assert_eq!(batch.approximate_size(), 3 + 5 + 8);
    batch.delete(b"ab");
    assert_eq!(batch.approximate_size(), 3 + 5 + 8 + 2 + 4);
}

#[test]
fn test_write_batch_log_entry_round_trip() {
    let mut batch = WriteBatch::new();
    batch.put(b"k1", b"v1");
    batch.delete(b"k2");
    batch.put(b"", b"");
    let entry = batch.encode();
    assert_eq!(entry[0], 1);
    assert_eq!(&entry[1..9], &3u64.to_le_bytes());
    let ops = decode_ops(&entry).unwrap();
    assert_eq!(&ops, batch.iter());
    // a cut entry and an entry with a tail are no batch
    assert!(decode_ops(&entry[..entry.len() - 1]).is_err());
    let mut longer = entry.clone();
    longer.push(0);
    assert!(matches!(decode_ops(&longer), Err(aidb::Error::Corruption(_))));
    assert!(decode_ops(&[2u8, 0, 0, 0, 0, 0, 0, 0, 0]).is_err());
}
