use aidb::error::Error;
use aidb::sstable::footer::{BlockHandle, Footer};
use aidb::sstable::index::IndexEntry;
use aidb::sstable::MAGIC_NUMBER;

#[test]
fn test_block_handle_encode_decode() {
    let handle = BlockHandle::new(1234, 5678);
    let encoded = handle.encode();
    assert_eq!(encoded.len(), 16);

    let decoded = BlockHandle::decode(&encoded).unwrap();
    assert_eq!(decoded, handle);
}

#[test]
fn test_block_handle_end_offset() {
    let handle = BlockHandle::new(100, 50);
    assert_eq!(handle.end_offset(), 150);
}

#[test]
fn test_footer_encode_decode() {
    let meta_handle = BlockHandle::new(1000, 100);
    let index_handle = BlockHandle::new(2000, 200);
    let footer = Footer::new(meta_handle, index_handle);

    let encoded = footer.encode();
    assert_eq!(encoded.len(), 48);

    let decoded = Footer::decode(&encoded).unwrap();
    assert_eq!(decoded, footer);
}

#[test]
fn test_footer_magic_number() {
    let footer = Footer::new(BlockHandle::new(0, 0), BlockHandle::new(0, 0));
    let encoded = footer.encode();

    // Verify magic number is at the end
    let magic = u64::from_le_bytes(encoded[40..48].try_into().unwrap());
    assert_eq!(magic, MAGIC_NUMBER);
}

#[test]
fn test_footer_invalid_magic() {
    let mut data = vec![0u8; 48];
    // Write wrong magic number
    data[40..48].copy_from_slice(&0x1234567890abcdefu64.to_le_bytes());

    let result = Footer::decode(&data);
    assert!(result.is_err());
    assert!(matches!(result.unwrap_err(), Error::Corruption(_)));
}

#[test]
fn test_footer_write_read() {
    let footer = Footer::new(BlockHandle::new(1000, 100), BlockHandle::new(2000, 200));

    let mut buffer = Vec::new();
    footer.write_to(&mut buffer).unwrap();

    let read_footer = Footer::read_from(&buffer).unwrap();

    assert_eq!(read_footer, footer);
}

#[test]
fn test_index_entry() {
    let entry = IndexEntry::new(b"key1".to_vec(), BlockHandle::new(100, 50));

    let encoded = entry.encode_value();
    let decoded = IndexEntry::decode_value(&encoded).unwrap();

    assert_eq!(decoded, entry.handle);
}

#[test]
fn test_block_handle_exact_bytes() {
    let handle = BlockHandle::new(0x0102, 0x0a);
    assert_eq!(handle.encode(), vec![2, 1, 0, 0, 0, 0, 0, 0, 10, 0, 0, 0, 0, 0, 0, 0]);
    assert!(matches!(BlockHandle::decode(&[0u8; 15]), Err(Error::Corruption(_))));
    // bytes behind the sixteenth are not looked at
    let mut longer = handle.encode();
    longer.push(7);
    assert_eq!(BlockHandle::decode(&longer).unwrap(), handle);
}

#[test]
fn test_footer_layout() {
    let footer = Footer::new(BlockHandle::new(1, 2), BlockHandle::new(3, 4));
    let encoded = footer.encode();
    assert_eq!(&encoded[0..8], &1u64.to_le_bytes());
    assert_eq!(&encoded[8..16], &2u64.to_le_bytes());
    assert_eq!(&encoded[16..24], &3u64.to_le_bytes());
    assert_eq!(&encoded[24..32], &4u64.to_le_bytes());
    assert_eq!(&encoded[32..40], &[0u8; 8]);
    assert_eq!(&encoded[40..48], b"SS_ELBAT");
    // a footer of another length is refused
    assert!(matches!(Footer::decode(&encoded[..47]), Err(Error::Corruption(_))));
    let mut longer = encoded.clone();
    longer.push(0);
    assert!(matches!(Footer::decode(&longer), Err(Error::Corruption(_))));
    // reading from a source that ends too early is an I/O error
    assert!(matches!(Footer::read_from(&encoded[..10]), Err(Error::Io(_))));
}
