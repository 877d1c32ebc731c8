use aidb::compaction::job::{CompactionJob, CompactionResult};
use aidb::compaction::picker::{CompactionPicker, CompactionTask};
use aidb::compaction::version::FileMetaData;
use aidb::compaction::MergeIterator;
use aidb::sstable::reader::TableEntry;
use aidb::sstable::{SSTableBuilder, SSTableReader};

fn create_sstable(file_num: u64, entries: &[(&[u8], &[u8])]) -> SSTableReader {
    let mut builder = SSTableBuilder::new().unwrap();

    for (key, value) in entries {
        builder.add(key, value).unwrap();
    }
    let file = builder.finish().unwrap();

    SSTableReader::open(file_num, file).unwrap()
}

fn collect(mut merge: MergeIterator) -> Vec<(Vec<u8>, Vec<u8>)> {
    let mut result = Vec::new();
    while let Some(TableEntry { key, value }) = merge.next() {
        result.push((key, value));
    }
    result
}

#[test]
fn test_merge_iterator_two_tables() {
    // Create two SSTables with non-overlapping keys
    let table1 = create_sstable(1, &[(b"a", b"1"), (b"c", b"3"), (b"e", b"5")]);

    let table2 = create_sstable(2, &[(b"b", b"2"), (b"d", b"4"), (b"f", b"6")]);

    let merge_iter = MergeIterator::new(&vec![&table1, &table2]).unwrap();
    let result: Vec<_> = collect(merge_iter);

    assert_eq!(result.len(), 6);
    assert_eq!(result[0], (b"a".to_vec(), b"1".to_vec()));
    assert_eq!(result[1], (b"b".to_vec(), b"2".to_vec()));
    assert_eq!(result[2], (b"c".to_vec(), b"3".to_vec()));
    assert_eq!(result[3], (b"d".to_vec(), b"4".to_vec()));
    assert_eq!(result[4], (b"e".to_vec(), b"5".to_vec()));
    assert_eq!(result[5], (b"f".to_vec(), b"6".to_vec()));
}

#[test]
fn test_merge_iterator_overlapping_keys() {
    // Create two SSTables with overlapping keys
    // Table 1 (newer) should take precedence
    let table1 = create_sstable(1, &[(b"a", b"new_a"), (b"c", b"new_c")]);

    let table2 = create_sstable(2, &[(b"a", b"old_a"), (b"b", b"old_b"), (b"c", b"old_c")]);

    let merge_iter = MergeIterator::new(&vec![&table1, &table2]).unwrap();
    let result: Vec<_> = collect(merge_iter);

    // Should have all keys, but duplicates come from table1 (newer)
    assert_eq!(result.len(), 5);
    assert_eq!(result[0], (b"a".to_vec(), b"new_a".to_vec()));
    assert_eq!(result[1], (b"a".to_vec(), b"old_a".to_vec()));
    assert_eq!(result[2], (b"b".to_vec(), b"old_b".to_vec()));
    assert_eq!(result[3], (b"c".to_vec(), b"new_c".to_vec()));
    assert_eq!(result[4], (b"c".to_vec(), b"old_c".to_vec()));
}

#[test]
fn test_merge_iterator_empty_table() {
    let table1 = create_sstable(1, &[(b"a", b"1"), (b"b", b"2")]);
    let table2 = create_sstable(2, &[]); // Empty table

    let merge_iter = MergeIterator::new(&vec![&table1, &table2]).unwrap();
    let result: Vec<_> = collect(merge_iter);

    assert_eq!(result.len(), 2);
    assert_eq!(result[0], (b"a".to_vec(), b"1".to_vec()));
    assert_eq!(result[1], (b"b".to_vec(), b"2".to_vec()));
}

#[test]
fn test_merge_iterator_single_table() {
    let table = create_sstable(1, &[(b"a", b"1"), (b"b", b"2"), (b"c", b"3")]);

    let merge_iter = MergeIterator::new(&vec![&table]).unwrap();
    let result: Vec<_> = collect(merge_iter);

    assert_eq!(result.len(), 3);
    assert_eq!(result[0], (b"a".to_vec(), b"1".to_vec()));
    assert_eq!(result[1], (b"b".to_vec(), b"2".to_vec()));
    assert_eq!(result[2], (b"c".to_vec(), b"3".to_vec()));
}

#[test]
fn test_merge_iterator_multiple_tables() {
    let table1 = create_sstable(1, &[(b"a", b"1"), (b"d", b"4")]);
    let table2 = create_sstable(2, &[(b"b", b"2"), (b"e", b"5")]);
    let table3 = create_sstable(3, &[(b"c", b"3"), (b"f", b"6")]);

    let merge_iter = MergeIterator::new(&vec![&table1, &table2, &table3]).unwrap();
    let result: Vec<_> = collect(merge_iter);

    assert_eq!(result.len(), 6);
    assert_eq!(result[0], (b"a".to_vec(), b"1".to_vec()));
    assert_eq!(result[1], (b"b".to_vec(), b"2".to_vec()));
    assert_eq!(result[2], (b"c".to_vec(), b"3".to_vec()));
    assert_eq!(result[3], (b"d".to_vec(), b"4".to_vec()));
    assert_eq!(result[4], (b"e".to_vec(), b"5".to_vec()));
    assert_eq!(result[5], (b"f".to_vec(), b"6".to_vec()));
}

#[test]
fn test_merge_of_nothing() {
    let merge_iter = MergeIterator::new(&Vec::new()).unwrap();
    assert!(collect(merge_iter).is_empty());
}

fn run_job(inputs: Vec<&SSTableReader>, output_level: usize) -> CompactionResult {
    CompactionJob::new(inputs, output_level, 4096).run(9).unwrap()
}

#[test]
fn test_compaction_keeps_the_newest_and_drops_tombstones_from_level_one_on() {
    let newer = create_sstable(2, &[(b"a", b"new_a"), (b"b", b""), (b"d", b"")]);
    let older = create_sstable(1, &[(b"a", b"old_a"), (b"b", b"old_b"), (b"c", b"old_c")]);

    // into level 1: the tombstones go, and with them what they covered
    let result = run_job(vec![&newer, &older], 1);
    assert_eq!(result.file_number, 9);
    assert_eq!(result.entry_count, 2);
    let table = SSTableReader::open(9, result.output.unwrap()).unwrap();
    let entries: Vec<_> =
        table.entries().unwrap().into_iter().map(|e| (e.key, e.value)).collect();
    assert_eq!(
        entries,
        vec![(b"a".to_vec(), b"new_a".to_vec()), (b"c".to_vec(), b"old_c".to_vec())]
    );

    // into level 0 the tombstones stay
    let result = run_job(vec![&newer, &older], 0);
    assert_eq!(result.entry_count, 4);
    let table = SSTableReader::open(9, result.output.unwrap()).unwrap();
    let entries: Vec<_> =
        table.entries().unwrap().into_iter().map(|e| (e.key, e.value)).collect();
    assert_eq!(
        entries,
        vec![
            (b"a".to_vec(), b"new_a".to_vec()),
            (b"b".to_vec(), Vec::new()),
            (b"c".to_vec(), b"old_c".to_vec()),
            (b"d".to_vec(), Vec::new()),
        ]
    );
}

#[test]
fn test_compaction_of_tombstones_alone_writes_no_table() {
    let tombstones = create_sstable(1, &[(b"a", b""), (b"b", b"")]);
    let result = run_job(vec![&tombstones], 1);
    assert_eq!(result.file_number, 0);
    assert_eq!(result.entry_count, 0);
    assert!(result.output.is_none());
    // at level 0 they are kept
    let result = run_job(vec![&tombstones], 0);
    assert_eq!(result.entry_count, 2);
}

fn files(sizes: &[u64], first_number: u64) -> Vec<FileMetaData> {
    sizes
        .iter()
        .enumerate()
        .map(|(i, size)| FileMetaData {
            file_number: first_number + i as u64,
            file_size: *size,
            smallest_key: b"a".to_vec(),
            largest_key: b"z".to_vec(),
        })
        .collect()
}

const MIB: u64 = 1024 * 1024;

#[test]
fn test_pick_level0_compaction() {
    let picker = CompactionPicker::new(7);

    // Create 4 SSTables at Level 0
    let mut levels: Vec<Vec<FileMetaData>> = vec![Vec::new(); 7];
    levels[0] = files(&[100, 100, 100, 100], 0);

    let task = picker.pick_compaction(&levels);
    assert!(task.is_some());

    let task = task.unwrap();
    assert_eq!(task.level, 0);
    assert_eq!(task.output_level, 1);
    assert_eq!(task.inputs.len(), 4);
}

#[test]
fn test_no_compaction_needed() {
    let picker = CompactionPicker::new(7);

    // Create only 2 SSTables at Level 0 (below threshold)
    let mut levels: Vec<Vec<FileMetaData>> = vec![Vec::new(); 7];
    levels[0] = files(&[100, 100], 0);

    let task = picker.pick_compaction(&levels);
    assert!(task.is_none());
}

#[test]
fn test_pick_level1_compaction() {
    let picker = CompactionPicker::new(7);

    // Create enough data at Level 1 to exceed threshold (10 MB)
    let mut levels: Vec<Vec<FileMetaData>> = vec![Vec::new(); 7];
    levels[1] = files(&[200 * 1024; 100], 0);

    // Verify the total size exceeds 10 MB
    let total_size = picker.calculate_level_size(&levels[1]);
    assert!(total_size > 10 * 1024 * 1024, "Total size: {} bytes", total_size);

    let task = picker.pick_compaction(&levels);
    assert!(task.is_some());

    let task = task.unwrap();
    assert_eq!(task.level, 1);
    assert_eq!(task.output_level, 2);
    assert!(!task.inputs.is_empty());
    // the oldest file of the level goes in, and it alone
    assert_eq!(task.inputs.len(), 1);
    assert_eq!(task.inputs[0].file_number, 0);
}

#[test]
fn test_level0_priority() {
    let picker = CompactionPicker::new(7);

    let mut levels: Vec<Vec<FileMetaData>> = vec![Vec::new(); 7];

    // Create files at both Level 0 and Level 1
    levels[0] = files(&[100, 100, 100, 100], 0);
    levels[1] = files(&[MIB; 20], 4);

    // Level 0 should have priority
    let task = picker.pick_compaction(&levels);
    assert!(task.is_some());

    let task = task.unwrap();
    assert_eq!(task.level, 0, "Level 0 should be picked first");
}

#[test]
fn test_calculate_level_size() {
    let picker = CompactionPicker::new(7);

    let level = files(&[1234, 4321], 1);
    let total_size = picker.calculate_level_size(&level);

    assert!(total_size > 0);
    assert_eq!(total_size, level[0].file_size + level[1].file_size);
}

fn picked(levels: &Vec<Vec<FileMetaData>>, max_levels: usize) -> Option<(usize, usize, Vec<u64>)> {
    CompactionPicker::new(max_levels).pick_compaction(levels).map(
        |CompactionTask { inputs, level, output_level }| {
            (level, output_level, inputs.iter().map(|f| f.file_number).collect())
        },
    )
}

#[test]
fn test_picker_thresholds() {
    let mut levels: Vec<Vec<FileMetaData>> = vec![Vec::new(); 7];
    // three files at level 0 are not enough, whatever their size
    levels[0] = files(&[u64::MAX / 4; 3], 0);
    assert_eq!(picked(&levels, 7), None);
    // a level at its target is not over it
    levels[1] = files(&[10 * MIB], 10);
    assert_eq!(picked(&levels, 7), None);
    levels[1] = files(&[10 * MIB, 1], 10);
    assert_eq!(picked(&levels, 7), Some((1, 2, vec![10])));
    // the shallowest level that is over its target is picked
    levels[2] = files(&[100 * MIB + 1], 20);
    assert_eq!(picked(&levels, 7), Some((1, 2, vec![10])));
    levels[1] = files(&[10 * MIB], 10);
    assert_eq!(picked(&levels, 7), Some((2, 3, vec![20])));
    // the last level is never compacted
    let mut levels: Vec<Vec<FileMetaData>> = vec![Vec::new(); 3];
    levels[2] = files(&[u64::MAX], 1);
    assert_eq!(picked(&levels, 3), None);
    levels[1] = files(&[u64::MAX, u64::MAX], 5);
    assert_eq!(picked(&levels, 3), Some((1, 2, vec![5])));
    // no levels, nothing to pick
    assert_eq!(picked(&Vec::new(), 7), None);
    assert_eq!(picked(&vec![files(&[1, 1, 1, 1], 0)], 1), Some((0, 1, vec![0, 1, 2, 3])));
}
