use aidb::config::CompressionType;
use aidb::error::Error;
use aidb::lookup::Lookup;
use aidb::sstable::{SSTableBuilder, SSTableReader};

fn create_test_sstable(entries: &[(&[u8], &[u8])]) -> Vec<u8> {
    let mut builder = SSTableBuilder::new().unwrap();

    for (key, value) in entries {
        builder.add(key, value).unwrap();
    }

    builder.finish().unwrap()
}

#[test]
fn test_sstable_builder_empty() {
    let builder = SSTableBuilder::new().unwrap();

    assert_eq!(builder.num_entries(), 0);
}

#[test]
fn test_sstable_builder_single_entry() {
    let mut builder = SSTableBuilder::new().unwrap();

    builder.add(b"key1", b"value1").unwrap();
    assert_eq!(builder.num_entries(), 1);

    let file = builder.finish().unwrap();
    assert!(file.len() > 0);
}

#[test]
fn test_sstable_builder_multiple_entries() {
    let mut builder = SSTableBuilder::new().unwrap();

    builder.add(b"apple", b"red").unwrap();
    builder.add(b"banana", b"yellow").unwrap();
    builder.add(b"cherry", b"red").unwrap();

    assert_eq!(builder.num_entries(), 3);

    let file = builder.finish().unwrap();
    assert!(file.len() > 0);
}

#[test]
fn test_sstable_builder_large_dataset() {
    let mut builder = SSTableBuilder::new().unwrap();
    builder.set_block_size(1024); // Small blocks to force multiple blocks

    // Add enough entries to create multiple data blocks
    for i in 0..1000 {
        let key = format!("key{:08}", i);
        let value = format!("value{:08}", i);
        builder.add(key.as_bytes(), value.as_bytes()).unwrap();
    }

    assert_eq!(builder.num_entries(), 1000);

    let file = builder.finish().unwrap();
    assert!(file.len() > 1024); // Should be larger than one block
}

#[test]
fn test_sstable_builder_sorted_keys() {
    let mut builder = SSTableBuilder::new().unwrap();

    builder.add(b"a", b"1").unwrap();
    builder.add(b"b", b"2").unwrap();

    // Try to add out of order - should fail
    let result = builder.add(b"a", b"3");
    assert!(result.is_err());
    assert!(matches!(result, Err(Error::InvalidArgument(_))));
    // nor may a key come twice
    assert!(matches!(builder.add(b"b", b"3"), Err(Error::InvalidArgument(_))));
    assert_eq!(builder.num_entries(), 2);
}

#[test]
fn test_sstable_builder_empty_key() {
    let mut builder = SSTableBuilder::new().unwrap();

    let result = builder.add(b"", b"value");
    assert!(result.is_err());
}

#[test]
fn test_sstable_builder_abandon() {
    let mut builder = SSTableBuilder::new().unwrap();

    builder.add(b"key1", b"value1").unwrap();
    assert_eq!(builder.num_entries(), 1);
    builder.abandon().unwrap();

    // what an abandoned table leaves is no table: it has no footer
    assert!(SSTableReader::open(1, Vec::new()).is_err());
}

#[test]
fn test_sstable_reader_open() {
    let entries = vec![
        (b"key1" as &[u8], b"value1" as &[u8]),
        (b"key2", b"value2"),
        (b"key3", b"value3"),
    ];

    let file = create_test_sstable(&entries);
    let reader = SSTableReader::open(1, file).unwrap();

    assert_eq!(reader.num_blocks(), 1);
}

#[test]
fn test_sstable_reader_get() {
    let entries = vec![
        (b"apple" as &[u8], b"red" as &[u8]),
        (b"banana", b"yellow"),
        (b"cherry", b"red"),
    ];

    let file = create_test_sstable(&entries);
    let reader = SSTableReader::open(1, file).unwrap();

    // Test exact matches
    assert_eq!(reader.get(b"apple").unwrap(), Some(b"red".to_vec()));
    assert_eq!(reader.get(b"banana").unwrap(), Some(b"yellow".to_vec()));
    assert_eq!(reader.get(b"cherry").unwrap(), Some(b"red".to_vec()));

    // Test non-existent key
    assert_eq!(reader.get(b"durian").unwrap(), None);
    assert_eq!(reader.get(b"aaa").unwrap(), None);
}

#[test]
fn test_sstable_reader_smallest_largest() {
    let entries =
        vec![(b"apple" as &[u8], b"1" as &[u8]), (b"banana", b"2"), (b"cherry", b"3")];

    let file = create_test_sstable(&entries);
    let reader = SSTableReader::open(1, file).unwrap();

    assert_eq!(reader.smallest_key().unwrap(), Some(b"apple".to_vec()));
    assert_eq!(reader.largest_key().unwrap(), Some(b"cherry".to_vec()));
}

#[test]
fn test_sstable_reader_large_dataset() {
    let mut builder = SSTableBuilder::new().unwrap();
    builder.set_block_size(1024); // Small blocks

    // Create a large dataset
    for i in 0..1000 {
        let key = format!("key{:08}", i);
        let value = format!("value{:08}", i);
        builder.add(key.as_bytes(), value.as_bytes()).unwrap();
    }
    let file = builder.finish().unwrap();

    let reader = SSTableReader::open(1, file).unwrap();

    // Should have multiple blocks
    assert!(reader.num_blocks() > 1);

    // Test random access
    assert_eq!(reader.get(b"key00000500").unwrap(), Some(b"value00000500".to_vec()));
    assert_eq!(reader.get(b"key00000000").unwrap(), Some(b"value00000000".to_vec()));
    assert_eq!(reader.get(b"key00000999").unwrap(), Some(b"value00000999".to_vec()));
}

#[test]
fn test_sstable_iterator() {
    let entries = vec![
        (b"apple" as &[u8], b"red" as &[u8]),
        (b"banana", b"yellow"),
        (b"cherry", b"red"),
    ];

    let file = create_test_sstable(&entries);
    let reader = SSTableReader::open(1, file).unwrap();

    let mut iter = reader.iter();
    iter.seek_to_first().unwrap();

    let mut collected = Vec::new();
    while iter.advance().unwrap() {
        if iter.valid() {
            collected.push((iter.key().to_vec(), iter.value().to_vec()));
        }
    }

    assert_eq!(collected.len(), 3);
    assert_eq!(collected[0], (b"apple".to_vec(), b"red".to_vec()));
    assert_eq!(collected[1], (b"banana".to_vec(), b"yellow".to_vec()));
    assert_eq!(collected[2], (b"cherry".to_vec(), b"red".to_vec()));
}

#[test]
fn test_sstable_corrupted_checksum() {
    let entries = vec![(b"key1" as &[u8], b"value1" as &[u8])];

    let mut file = create_test_sstable(&entries);

    // Corrupt the file by modifying a byte
    file[10] = 0xFF;

    let reader = SSTableReader::open(1, file).unwrap();
    let result = reader.get(b"key1");

    // Should detect corruption
    assert!(result.is_err());
    assert!(matches!(result, Err(Error::ChecksumMismatch { .. })));
}

#[test]
fn test_sstable_with_bloom_filter() {
    // Build SSTable with bloom filter
    let mut builder = SSTableBuilder::new().unwrap();
    builder.set_bloom_filter(Some(10));

    // Add keys
    for i in 0..100 {
        let key = format!("key{:04}", i);
        let value = format!("value{:04}", i);
        builder.add(key.as_bytes(), value.as_bytes()).unwrap();
    }

    let file = builder.finish().unwrap();

    // Read SSTable with bloom filter
    let reader = SSTableReader::open(1, file).unwrap();

    // Verify bloom filter is loaded
    assert!(reader.has_bloom_filter(), "Bloom filter should be present");

    // Test existing keys (should all be found)
    for i in 0..100 {
        let key = format!("key{:04}", i);
        let value = reader.get(key.as_bytes()).unwrap();
        assert!(value.is_some(), "Key {} should be found", key);
        assert_eq!(value.unwrap(), format!("value{:04}", i).as_bytes());
    }

    // Test non-existent keys (bloom filter should help avoid disk reads)
    let mut false_positives = 0;
    for i in 1000..2000 {
        let key = format!("key{:04}", i);
        let value = reader.get(key.as_bytes()).unwrap();
        if value.is_some() {
            false_positives += 1;
        }
    }

    println!("False positives: {}/1000", false_positives);
    assert!(false_positives < 50, "Too many false positives: {}", false_positives);
}

#[test]
fn test_sstable_bloom_filter_effectiveness() {
    // Build a large SSTable
    let mut builder = SSTableBuilder::new().unwrap();
    builder.set_bloom_filter(Some(10));

    for i in 0..10000 {
        let key = format!("existing_key_{:08}", i);
        let value = format!("value{:08}", i);
        builder.add(key.as_bytes(), value.as_bytes()).unwrap();
    }

    let file = builder.finish().unwrap();

    // Read and test
    let reader = SSTableReader::open(1, file).unwrap();

    // Test that all existing keys are found (no false negatives)
    for i in 0..10000 {
        let key = format!("existing_key_{:08}", i);
        let result = reader.get(key.as_bytes()).unwrap();
        assert!(result.is_some(), "Existing key should be found: {}", key);
    }

    // Test non-existent keys
    let mut false_positives = 0;
    let test_count = 10000;

    for i in 100000..100000 + test_count {
        let key = format!("nonexistent_key_{:08}", i);
        let result = reader.get(key.as_bytes()).unwrap();
        if result.is_some() {
            false_positives += 1;
        }
    }

    let fp_rate = false_positives as f64 / test_count as f64;
    println!("False positive rate: {:.4} ({}/{})", fp_rate, false_positives, test_count);

    assert!(fp_rate < 0.03, "False positive rate too high: {:.4}", fp_rate);
}

#[test]
fn test_sstable_without_bloom_filter() {
    // Build SSTable without bloom filter
    let mut builder = SSTableBuilder::new().unwrap();
    builder.set_bloom_filter(None);

    for i in 0..100 {
        let key = format!("key{:04}", i);
        let value = format!("value{:04}", i);
        builder.add(key.as_bytes(), value.as_bytes()).unwrap();
    }

    let file = builder.finish().unwrap();

    // Read SSTable
    let reader = SSTableReader::open(1, file).unwrap();
    assert!(!reader.has_bloom_filter());

    // Test existing keys
    for i in 0..100 {
        let key = format!("key{:04}", i);
        let value = reader.get(key.as_bytes()).unwrap();
        assert!(value.is_some(), "Key {} should be found", key);
    }
}

#[test]
fn test_sstable_bloom_filter_small_dataset() {
    // Build SSTable with very few keys
    let mut builder = SSTableBuilder::new().unwrap();
    builder.set_bloom_filter(Some(10));

    for i in 0..10 {
        let key = format!("key{}", i);
        let value = format!("value{}", i);
        builder.add(key.as_bytes(), value.as_bytes()).unwrap();
    }

    let file = builder.finish().unwrap();

    // Read and verify
    let reader = SSTableReader::open(1, file).unwrap();

    // All keys should be found
    for i in 0..10 {
        let key = format!("key{}", i);
        assert!(reader.get(key.as_bytes()).unwrap().is_some());
    }
}

#[test]
fn test_sstable_bloom_filter_with_tombstones() {
    // Build SSTable with some tombstones (empty values)
    let mut builder = SSTableBuilder::new().unwrap();
    builder.set_bloom_filter(Some(10));

    // Add normal entries
    for i in 0..25 {
        let key = format!("key{:04}", i);
        let value = format!("value{:04}", i);
        builder.add(key.as_bytes(), value.as_bytes()).unwrap();
    }

    // Add tombstones (empty values represent deleted keys)
    for i in 25..50 {
        let key = format!("key{:04}", i);
        builder.add(key.as_bytes(), b"").unwrap(); // Empty value = tombstone
    }

    let file = builder.finish().unwrap();

    // Read and verify
    let reader = SSTableReader::open(1, file).unwrap();

    // Normal entries should be found
    for i in 0..25 {
        let key = format!("key{:04}", i);
        let result = reader.get(key.as_bytes()).unwrap();
        assert!(result.is_some(), "Key {} should be found", key);
    }

    // Tombstones should return None
    for i in 25..50 {
        let key = format!("key{:04}", i);
        let result = reader.get(key.as_bytes()).unwrap();
        assert!(result.is_none(), "Deleted key {} should return None", key);
        assert_eq!(reader.find(key.as_bytes()).unwrap(), Lookup::Deleted);
    }
    assert_eq!(reader.find(b"key9999").unwrap(), Lookup::Missing);
}

fn round_trip(compression: CompressionType, filter: Option<usize>, block_size: usize) {
    let mut builder = SSTableBuilder::new().unwrap();
    builder.set_compression(compression);
    builder.set_bloom_filter(filter);
    builder.set_block_size(block_size);
    let mut expected = Vec::new();
    for i in 0..300 {
        let key = format!("key{:05}", i).into_bytes();
        let value = vec![(i % 251) as u8 + 1; 1 + (i % 40)];
        builder.add(&key, &value).unwrap();
        expected.push((key, value));
    }
    let file = builder.finish().unwrap();
    assert_eq!(&file[file.len() - 8..], b"SS_ELBAT");
    let reader = SSTableReader::open(7, file.clone()).unwrap();
    assert_eq!(reader.file_number(), Some(7));
    assert_eq!(reader.file_size(), file.len() as u64);
    assert_eq!(reader.has_bloom_filter(), filter.is_some());
    for (key, value) in &expected {
        assert_eq!(reader.get(key).unwrap().as_ref(), Some(value));
    }
    assert_eq!(reader.get(b"key").unwrap(), None);
    assert_eq!(reader.get(b"key00000x").unwrap(), None);
    assert_eq!(reader.get(b"zzz").unwrap(), None);
    let entries = reader.entries().unwrap();
    assert_eq!(entries.len(), 300);
    for (entry, (key, value)) in entries.iter().zip(&expected) {
        assert_eq!((&entry.key, &entry.value), (key, value));
    }
    let keys = reader.keys().unwrap();
    assert_eq!(keys.len(), 300);
    assert_eq!(keys[299], expected[299].0);
}

#[test]
fn test_sstable_round_trip_under_every_compression() {
    for compression in
        [CompressionType::NoCompression, CompressionType::Snappy, CompressionType::Lz4]
    {
        round_trip(compression, None, 4096);
        round_trip(compression, Some(10), 256);
    }
}

#[test]
fn test_sstable_compression_is_stored_and_saves_room() {
    let value = vec![b'x'; 2000];
    let mut sizes = Vec::new();
    for compression in
        [CompressionType::NoCompression, CompressionType::Snappy, CompressionType::Lz4]
    {
        let mut builder = SSTableBuilder::new().unwrap();
        builder.set_compression(compression);
        builder.add(b"a", &value).unwrap();
        builder.add(b"b", &value).unwrap();
        let file = builder.finish().unwrap();
        // the first block is followed by the byte that names its compression
        let reader = SSTableReader::open(1, file.clone()).unwrap();
        assert_eq!(reader.get(b"b").unwrap(), Some(value.clone()));
        sizes.push(file.len());
    }
    assert!(sizes[1] < sizes[0]);
    assert!(sizes[2] < sizes[0]);
}

#[test]
fn test_sstable_files_that_are_no_tables() {
    assert!(matches!(SSTableReader::open(1, vec![0; 47]), Err(Error::Corruption(_))));
    assert!(matches!(SSTableReader::open(1, vec![0; 48]), Err(Error::Corruption(_))));
    let mut file = create_test_sstable(&[(b"k" as &[u8], b"v" as &[u8])]);
    let len = file.len();
    file[len - 1] ^= 1;
    assert!(matches!(SSTableReader::open(1, file), Err(Error::Corruption(_))));
    // a table without entries can be read, and holds nothing
    let empty = SSTableBuilder::new().unwrap().finish().unwrap();
    let reader = SSTableReader::open(1, empty).unwrap();
    assert_eq!(reader.num_blocks(), 0);
    assert_eq!(reader.get(b"k").unwrap(), None);
    assert_eq!(reader.smallest_key().unwrap(), None);
    assert_eq!(reader.largest_key().unwrap(), None);
    let mut iter = reader.iter();
    iter.seek_to_first().unwrap();
    assert!(!iter.advance().unwrap());
}

#[test]
fn test_sstable_large_value_spans_no_more_blocks_than_it_must() {
    let big = vec![7u8; 1 << 20];
    let mut builder = SSTableBuilder::new().unwrap();
    builder.add(b"a", b"small").unwrap();
    builder.add(b"big", &big).unwrap();
    builder.add(b"c", b"small").unwrap();
    let file = builder.finish().unwrap();
    let reader = SSTableReader::open(1, file).unwrap();
    // the large value closes the first block; the last entry has its own
    assert_eq!(reader.num_blocks(), 2);
    assert_eq!(reader.get(b"big").unwrap(), Some(big));
    assert_eq!(reader.get(b"c").unwrap(), Some(b"small".to_vec()));
}
