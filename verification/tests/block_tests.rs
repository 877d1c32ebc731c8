use aidb::error::Error;
use aidb::sstable::block::{Block, BlockBuilder};
use aidb::sstable::footer::BlockHandle;
use aidb::sstable::index::{IndexBlock, IndexBlockBuilder, IndexEntry};

#[test]
fn test_block_builder_empty() {
    let builder = BlockBuilder::new(16);
    assert!(builder.is_empty());
}

#[test]
fn test_block_builder_single_entry() {
    let mut builder = BlockBuilder::new(16);
    builder.add(b"key1", b"value1");

    let data = builder.finish();
    let block = Block::new(data).unwrap();

    assert_eq!(block.num_restarts(), 1);
}

#[test]
fn test_block_builder_multiple_entries() {
    let mut builder = BlockBuilder::new(2);
    builder.add(b"key1", b"value1");
    builder.add(b"key2", b"value2");
    builder.add(b"key3", b"value3");

    let data = builder.finish();
    let block = Block::new(data).unwrap();

    // Should have 2 restart points (at entry 0 and entry 2)
    assert_eq!(block.num_restarts(), 2);
}

#[test]
fn test_block_iterator() {
    let mut builder = BlockBuilder::new(16);
    builder.add(b"apple", b"red");
    builder.add(b"banana", b"yellow");
    builder.add(b"cherry", b"red");

    let data = builder.finish();
    let block = Block::new(data).unwrap();

    let mut iter = block.iter();
    iter.seek_to_first();

    // First entry
    assert!(iter.next());
    assert!(iter.valid());
    assert_eq!(iter.key(), b"apple");
    assert_eq!(iter.value(), b"red");

    // Second entry
    assert!(iter.next());
    assert!(iter.valid());
    assert_eq!(iter.key(), b"banana");
    assert_eq!(iter.value(), b"yellow");

    // Third entry
    assert!(iter.next());
    assert!(iter.valid());
    assert_eq!(iter.key(), b"cherry");
    assert_eq!(iter.value(), b"red");

    // No more entries
    assert!(!iter.next());
    assert!(!iter.valid());
}

#[test]
fn test_prefix_compression() {
    let mut builder = BlockBuilder::new(16);
    builder.add(b"apple_a", b"1");
    builder.add(b"apple_b", b"2");
    builder.add(b"apple_c", b"3");

    let size_with_compression = builder.current_size();

    // Without compression, each entry would be at least:
    // 12 bytes (header) + 7 bytes (key) + 1 byte (value) = 20 bytes per entry
    // With compression, later entries should be smaller
    let size_without_compression = 20 * 3 + 8; // 8 for restart info

    assert!(size_with_compression < size_without_compression);
    // the second and the third entry share six bytes with the one before
    assert_eq!(size_with_compression, 20 + 14 + 14 + 8);
}

#[test]
fn test_block_exact_bytes() {
    let mut builder = BlockBuilder::new(2);
    builder.add(b"ab", b"1");
    builder.add(b"ac", b"");
    builder.add(b"b", b"23");
    assert_eq!(builder.current_size(), 15 + 13 + 15 + 8 + 4);
    let data = builder.finish();
    let mut expected: Vec<u8> = Vec::new();
    // the first entry shares nothing
    expected.extend_from_slice(&0u32.to_le_bytes());
    expected.extend_from_slice(&2u32.to_le_bytes());
    expected.extend_from_slice(&1u32.to_le_bytes());
    expected.extend_from_slice(b"ab1");
    // the second shares one byte with the first
    expected.extend_from_slice(&1u32.to_le_bytes());
    expected.extend_from_slice(&1u32.to_le_bytes());
    expected.extend_from_slice(&0u32.to_le_bytes());
    expected.extend_from_slice(b"c");
    // the third opens a restart point and shares nothing
    expected.extend_from_slice(&0u32.to_le_bytes());
    expected.extend_from_slice(&1u32.to_le_bytes());
    expected.extend_from_slice(&2u32.to_le_bytes());
    expected.extend_from_slice(b"b23");
    // the restart points and their number
    expected.extend_from_slice(&0u32.to_le_bytes());
    expected.extend_from_slice(&28u32.to_le_bytes());
    expected.extend_from_slice(&2u32.to_le_bytes());
    assert_eq!(data, expected);

    let block = Block::new(data.clone()).unwrap();
    assert_eq!(block.data(), &data[..]);
    let mut iter = block.iter();
    iter.seek_to_first();
    let mut seen = Vec::new();
    while iter.next() {
        seen.push((iter.key().to_vec(), iter.value().to_vec()));
    }
    assert_eq!(
        seen,
        vec![
            (b"ab".to_vec(), b"1".to_vec()),
            (b"ac".to_vec(), Vec::new()),
            (b"b".to_vec(), b"23".to_vec()),
        ]
    );
}

#[test]
fn test_block_rejects_what_is_no_block() {
    assert!(matches!(Block::new(vec![1, 2, 3]), Err(Error::Corruption(_))));
    // four bytes that announce more restart points than there is room for
    assert!(matches!(Block::new(vec![9, 0, 0, 0]), Err(Error::Corruption(_))));
    // a block without entries and without restart points
    let block = Block::new(vec![0, 0, 0, 0]).unwrap();
    let mut iter = block.iter();
    iter.seek_to_first();
    assert!(!iter.next());
    // an entry that announces more bytes than the block has ends the reading
    let mut builder = BlockBuilder::new(16);
    builder.add(b"key", b"value");
    let mut data = builder.finish();
    data[8] = 200;
    let block = Block::new(data).unwrap();
    let mut iter = block.iter();
    iter.seek_to_first();
    assert!(!iter.next());
    assert!(!iter.valid());
}

#[test]
fn test_index_block_builder() {
    let mut builder = IndexBlockBuilder::new();
    assert!(builder.is_empty());

    builder.add_entry(&IndexEntry::new(b"apple".to_vec(), BlockHandle::new(0, 100)));
    builder.add_entry(&IndexEntry::new(b"banana".to_vec(), BlockHandle::new(100, 150)));
    builder.add_entry(&IndexEntry::new(b"cherry".to_vec(), BlockHandle::new(250, 200)));

    let data = builder.finish();
    assert!(!data.is_empty());

    let index = IndexBlock::new(data).unwrap();
    assert_eq!(index.len(), 3);
}

#[test]
fn test_index_block_find() {
    let mut builder = IndexBlockBuilder::new();
    builder.add_entry(&IndexEntry::new(b"apple".to_vec(), BlockHandle::new(0, 100)));
    builder.add_entry(&IndexEntry::new(b"banana".to_vec(), BlockHandle::new(100, 150)));
    builder.add_entry(&IndexEntry::new(b"cherry".to_vec(), BlockHandle::new(250, 200)));

    let data = builder.finish();
    let index = IndexBlock::new(data).unwrap();

    // Find exact match
    let handle = index.find_block(b"banana").unwrap().unwrap();
    assert_eq!(handle.offset, 100);

    // Find key in first block
    let handle = index.find_block(b"aaa").unwrap().unwrap();
    assert_eq!(handle.offset, 0);

    // Find key between blocks
    let handle = index.find_block(b"avocado").unwrap().unwrap();
    assert_eq!(handle.offset, 100);

    // Find key in last block
    let handle = index.find_block(b"carrot").unwrap().unwrap();
    assert_eq!(handle.offset, 250);

    // Find key after all blocks
    let handle = index.find_block(b"durian").unwrap();
    assert!(handle.is_some());
    assert_eq!(handle.unwrap(), BlockHandle::new(250, 200));
}

#[test]
fn test_index_iterator() {
    let mut builder = IndexBlockBuilder::new();
    builder.add_entry(&IndexEntry::new(b"apple".to_vec(), BlockHandle::new(0, 100)));
    builder.add_entry(&IndexEntry::new(b"banana".to_vec(), BlockHandle::new(100, 150)));

    let data = builder.finish();
    let index = IndexBlock::new(data).unwrap();

    let mut iter = index.iter();
    iter.seek_to_first();

    // First entry
    assert!(iter.advance());
    let entry = iter.entry().unwrap();
    assert_eq!(entry.key, b"apple");
    assert_eq!(entry.handle.offset, 0);

    // Second entry
    assert!(iter.advance());
    let entry = iter.entry().unwrap();
    assert_eq!(entry.key, b"banana");
    assert_eq!(entry.handle.offset, 100);

    // No more entries
    assert!(!iter.advance());
    assert!(!iter.valid());
    assert!(matches!(iter.entry(), Err(Error::InvalidState(_))));
}

#[test]
fn test_index_block_edges() {
    // an empty index names no block
    let index = IndexBlock::new(IndexBlockBuilder::new().finish()).unwrap();
    assert!(index.is_empty());
    assert_eq!(index.find_block(b"any").unwrap(), None);
    // an entry whose value is no handle is corruption when it is picked
    let mut builder = aidb::sstable::block::BlockBuilder::new(1);
    builder.add(b"k", b"short");
    let index = IndexBlock::new(builder.finish()).unwrap();
    assert!(matches!(index.find_block(b"a"), Err(Error::Corruption(_))));
    let mut iter = index.iter();
    iter.seek_to_first();
    assert!(iter.advance());
    assert!(matches!(iter.entry(), Err(Error::Corruption(_))));
}
