use aidb::memtable::{InternalKey, ValueType};

#[test]
fn test_value_type_conversion() {
    assert_eq!(ValueType::Deletion.as_u8(), 0);
    assert_eq!(ValueType::Value.as_u8(), 1);

    assert_eq!(ValueType::from_u8(0), Some(ValueType::Deletion));
    assert_eq!(ValueType::from_u8(1), Some(ValueType::Value));
    assert_eq!(ValueType::from_u8(2), None);
}

#[test]
fn test_internal_key_creation() {
    let key = InternalKey::new(b"test_key".to_vec(), 42, ValueType::Value);

    assert_eq!(key.user_key(), b"test_key");
    assert_eq!(key.sequence(), 42);
    assert_eq!(key.value_type(), ValueType::Value);
}

#[test]
fn test_internal_key_encode_decode() {
    let original = InternalKey::new(b"test_key".to_vec(), 12345, ValueType::Value);
    let encoded = original.encode();
    let decoded = InternalKey::decode(&encoded).unwrap();

    assert_eq!(decoded.user_key(), original.user_key());
    assert_eq!(decoded.sequence(), original.sequence());
    assert_eq!(decoded.value_type(), original.value_type());
}

#[test]
fn test_internal_key_decode_invalid() {
    // Too short
    assert!(InternalKey::decode(&[1, 2, 3]).is_none());

    // Invalid value type
    let mut buf = vec![1, 2, 3, 4, 5, 6, 7, 8]; // 8 bytes
    buf.extend_from_slice(&42u64.to_le_bytes());
    buf.push(99); // Invalid type
    assert!(InternalKey::decode(&buf).is_none());
}

#[test]
fn test_internal_key_ordering_by_user_key() {
    let key1 = InternalKey::new(b"a".to_vec(), 100, ValueType::Value);
    let key2 = InternalKey::new(b"b".to_vec(), 100, ValueType::Value);

    assert!(key1 < key2);
    assert!(key2 > key1);
}

#[test]
fn test_internal_key_ordering_by_sequence() {
    // Same user key, different sequences (newer first)
    let key1 = InternalKey::new(b"key".to_vec(), 100, ValueType::Value);
    let key2 = InternalKey::new(b"key".to_vec(), 50, ValueType::Value);

    // Higher sequence should come first (descending order)
    assert!(key1 < key2);
}

#[test]
fn test_internal_key_ordering_by_type() {
    // Same user key and sequence, different types
    let value_key = InternalKey::new(b"key".to_vec(), 100, ValueType::Value);
    let delete_key = InternalKey::new(b"key".to_vec(), 100, ValueType::Deletion);

    // Value should come before Deletion
    assert!(value_key < delete_key);
}

#[test]
fn test_internal_key_complete_ordering() {
    let mut keys = [
        InternalKey::new(b"key2".to_vec(), 100, ValueType::Value),
        InternalKey::new(b"key1".to_vec(), 50, ValueType::Value),
        InternalKey::new(b"key1".to_vec(), 100, ValueType::Deletion),
        InternalKey::new(b"key1".to_vec(), 100, ValueType::Value),
        InternalKey::new(b"key1".to_vec(), 150, ValueType::Value),
    ];

    keys.sort();

    assert_eq!(keys[0].user_key(), b"key1");
    assert_eq!(keys[0].sequence(), 150);

    assert_eq!(keys[1].user_key(), b"key1");
    assert_eq!(keys[1].sequence(), 100);
    assert_eq!(keys[1].value_type(), ValueType::Value);

    assert_eq!(keys[2].user_key(), b"key1");
    assert_eq!(keys[2].sequence(), 100);
    assert_eq!(keys[2].value_type(), ValueType::Deletion);

    assert_eq!(keys[3].user_key(), b"key1");
    assert_eq!(keys[3].sequence(), 50);

    assert_eq!(keys[4].user_key(), b"key2");
}

#[test]
fn test_encoded_size() {
    let key = InternalKey::new(b"test".to_vec(), 100, ValueType::Value);
    assert_eq!(key.encoded_size(), 4 + 8 + 1); // user_key(4) + sequence(8) + type(1)
}

#[test]
fn test_internal_key_exact_bytes() {
    let key = InternalKey::new(b"ab".to_vec(), 0x0102, ValueType::Value);
    assert_eq!(key.encode(), vec![b'a', b'b', 0x02, 0x01, 0, 0, 0, 0, 0, 0, 1]);
    let tomb = InternalKey::new(Vec::new(), u64::MAX, ValueType::Deletion);
    assert_eq!(tomb.encode(), vec![0xff, 0xff, 0xff, 0xff, 0xff, 0xff, 0xff, 0xff, 0]);
    assert_eq!(InternalKey::decode(&tomb.encode()).unwrap().sequence(), u64::MAX);
}

#[test]
fn test_internal_key_precedes_agrees_with_the_order() {
    let keys = [
        InternalKey::new(b"a".to_vec(), 5, ValueType::Value),
        InternalKey::new(b"a".to_vec(), 5, ValueType::Deletion),
        InternalKey::new(b"a".to_vec(), 4, ValueType::Value),
        InternalKey::new(b"ab".to_vec(), 9, ValueType::Value),
        InternalKey::new(b"b".to_vec(), 0, ValueType::Deletion),
    ];
    for i in 0..keys.len() {
        for j in 0..keys.len() {
            assert_eq!(keys[i].precedes(&keys[j]), i < j);
            assert_eq!(keys[i] < keys[j], i < j);
        }
    }
}
