#![allow(unused_imports)]
use aidb::{DBIterator, Directory, Error, FileId, FileKind, IteratorState, Options, WriteBatch};
use std::cell::RefCell;

/// Stands for the directory of a database: the files that are on disk.
#[allow(dead_code)]
struct TempDir {
    files: RefCell<Directory>,
}

#[allow(dead_code)]
impl TempDir {
    fn new() -> Result<TempDir, Error> {
        Ok(TempDir { files: RefCell::new(Directory::new()) })
    }

    fn path(&self) -> &TempDir {
        self
    }

    fn to_path_buf(&self) -> &TempDir {
        self
    }

    fn count(&self, kind: FileKind) -> usize {
        self.files.borrow().numbers(kind).len()
    }

    fn read(&self, kind: FileKind, number: u64) -> Option<Vec<u8>> {
        self.files.borrow().read(FileId { kind, number })
    }

    fn write(&self, kind: FileKind, number: u64, data: Vec<u8>) {
        self.files.borrow_mut().write(FileId { kind, number }, data);
    }

    fn remove(&self, kind: FileKind, number: u64) {
        self.files.borrow_mut().remove(FileId { kind, number });
    }

    fn numbers(&self, kind: FileKind) -> Vec<u64> {
        let mut numbers = self.files.borrow().numbers(kind);
        numbers.sort();
        numbers
    }
}

/// A database that is open in a directory. It hands every call on to the
/// engine; like a database on disk it leaves its files behind when it goes
/// away, after a last flush.
#[allow(dead_code)]
struct DB<'a> {
    engine: RefCell<aidb::DB>,
    home: &'a TempDir,
}

#[allow(dead_code)]
impl<'a> DB<'a> {
    fn open(home: &'a TempDir, options: Options) -> Result<DB<'a>, Error> {
        let engine = aidb::DB::open(&home.files.borrow(), options)?;
        let db = DB { engine: RefCell::new(engine), home };
        db.save();
        Ok(db)
    }

    fn save(&self) {
        let files = self.engine.borrow().files();
        *self.home.files.borrow_mut() = files;
    }

    fn put(&self, key: &[u8], value: &[u8]) -> Result<(), Error> {
        self.engine.borrow_mut().put(key, value)
    }

    fn get(&self, key: &[u8]) -> Result<Option<Vec<u8>>, Error> {
        self.engine.borrow().get(key)
    }

    fn get_at_sequence(&self, key: &[u8], sequence: u64) -> Result<Option<Vec<u8>>, Error> {
        self.engine.borrow().get_at_sequence(key, sequence)
    }

    fn delete(&self, key: &[u8]) -> Result<(), Error> {
        self.engine.borrow_mut().delete(key)
    }

    fn write(&self, batch: WriteBatch) -> Result<(), Error> {
        self.engine.borrow_mut().write(batch)
    }

    fn flush(&self) -> Result<(), Error> {
        let result = self.engine.borrow_mut().flush();
        self.save();
        result
    }

    fn maybe_trigger_compaction(&self) -> Result<(), Error> {
        let result = self.engine.borrow_mut().maybe_trigger_compaction();
        self.save();
        result
    }

    fn close(&self) -> Result<(), Error> {
        let result = self.engine.borrow_mut().close();
        self.save();
        result
    }

    fn snapshot(&self) -> Snapshot<'_, 'a> {
        Snapshot { db: self, inner: self.engine.borrow().snapshot() }
    }

    fn iter(&self) -> Iter<'_, 'a> {
        let state = self.engine.borrow().iter().unwrap().detach();
        Iter { db: self, state: Some(state) }
    }

    fn scan(&self, start: Option<&[u8]>, end: Option<&[u8]>) -> Result<Iter<'_, 'a>, Error> {
        let state = self.engine.borrow().scan(start, end)?.detach();
        Ok(Iter { db: self, state: Some(state) })
    }

    /// The tables of every level, each standing as a 0 in the list of
    /// its level.
    fn tables(&self) -> Vec<Vec<u64>> {
        let engine = self.engine.borrow();
        (0..engine.options().max_levels).map(|l| vec![0; engine.num_level_files(l)]).collect()
    }

    /// The frozen MemTables, each standing as a 0.
    fn frozen_tables(&self) -> Vec<u64> {
        vec![0; self.engine.borrow().num_immutable_memtables()]
    }

    fn level_files(&self, level: usize) -> usize {
        self.engine.borrow().num_level_files(level)
    }

    fn frozen(&self) -> usize {
        self.engine.borrow().num_immutable_memtables()
    }
}

impl<'a> Drop for DB<'a> {
    fn drop(&mut self) {
        let _ = self.engine.borrow_mut().close();
        self.save();
    }
}

/// Ends a database as a crash does: nothing is flushed, and what is on
/// disk is what was durable.
#[allow(dead_code)]
fn simulate_crash(db: DB) {
    db.save();
    std::mem::forget(db);
}

#[allow(dead_code)]
struct Snapshot<'d, 'a> {
    db: &'d DB<'a>,
    inner: aidb::Snapshot,
}

#[allow(dead_code)]
impl<'d, 'a> Snapshot<'d, 'a> {
    fn get(&self, key: &[u8]) -> Result<Option<Vec<u8>>, Error> {
        self.inner.get(&self.db.engine.borrow(), key)
    }

    fn sequence(&self) -> u64 {
        self.inner.sequence()
    }
}

/// An iterator that borrows the engine only while it moves.
#[allow(dead_code)]
struct Iter<'d, 'a> {
    db: &'d DB<'a>,
    state: Option<IteratorState>,
}

#[allow(dead_code)]
impl<'d, 'a> Iter<'d, 'a> {
    fn with<R>(&mut self, op: impl FnOnce(&mut DBIterator) -> R) -> R {
        let engine = self.db.engine.borrow();
        let mut it = DBIterator::attach(&engine, self.state.take().unwrap());
        let result = op(&mut it);
        self.state = Some(it.detach());
        result
    }

    fn valid(&self) -> bool {
        self.state.as_ref().unwrap().current.is_some()
    }

    fn key(&self) -> &[u8] {
        self.state.as_ref().unwrap().current.as_ref().expect("Iterator not valid").0.as_slice()
    }

    fn value(&self) -> &[u8] {
        self.state.as_ref().unwrap().current.as_ref().expect("Iterator not valid").1.as_slice()
    }

    fn next(&mut self) {
        self.with(|it| it.next())
    }

    fn prev(&mut self) {
        self.with(|it| it.prev())
    }

    fn seek(&mut self, target: &[u8]) {
        self.with(|it| it.seek(target))
    }

    fn seek_to_first(&mut self) {
        self.with(|it| it.seek_to_first())
    }

    fn seek_to_last(&mut self) {
        self.with(|it| it.seek_to_last())
    }
}
use std::sync::Arc;

#[test]
fn test_db_open() {
    let temp_dir = TempDir::new().unwrap();
    let options = Options::default();
    let result = DB::open(temp_dir.path(), options);
    assert!(result.is_ok());
}

#[test]
fn test_db_put_and_get() {
    let temp_dir = TempDir::new().unwrap();
    let db = DB::open(temp_dir.path(), Options::default()).unwrap();

    // Test put and get
    db.put(b"key1", b"value1").unwrap();
    let value = db.get(b"key1").unwrap();
    assert_eq!(value, Some(b"value1".to_vec()));

    // Test non-existent key
    let value = db.get(b"key2").unwrap();
    assert_eq!(value, None);
}

#[test]
fn test_db_delete() {
    let temp_dir = TempDir::new().unwrap();
    let db = DB::open(temp_dir.path(), Options::default()).unwrap();

    // Put a key
    db.put(b"key1", b"value1").unwrap();
    assert_eq!(db.get(b"key1").unwrap(), Some(b"value1".to_vec()));

    // Delete the key
    db.delete(b"key1").unwrap();
    assert_eq!(db.get(b"key1").unwrap(), None);
}

#[test]
fn test_db_overwrite() {
    let temp_dir = TempDir::new().unwrap();
    let db = DB::open(temp_dir.path(), Options::default()).unwrap();

    // Put initial value
    db.put(b"key1", b"value1").unwrap();
    assert_eq!(db.get(b"key1").unwrap(), Some(b"value1".to_vec()));

    // Overwrite with new value
    db.put(b"key1", b"value2").unwrap();
    assert_eq!(db.get(b"key1").unwrap(), Some(b"value2".to_vec()));
}

#[test]
fn test_db_multiple_operations() {
    let temp_dir = TempDir::new().unwrap();
    let db = DB::open(temp_dir.path(), Options::default()).unwrap();

    // Multiple puts
    for i in 0..100 {
        let key = format!("key{}", i);
        let value = format!("value{}", i);
        db.put(key.as_bytes(), value.as_bytes()).unwrap();
    }

    // Verify all values
    for i in 0..100 {
        let key = format!("key{}", i);
        let expected = format!("value{}", i);
        let value = db.get(key.as_bytes()).unwrap();
        assert_eq!(value, Some(expected.as_bytes().to_vec()));
    }
}

#[test]
fn test_db_close() {
    let temp_dir = TempDir::new().unwrap();
    let db = DB::open(temp_dir.path(), Options::default()).unwrap();

    db.put(b"key1", b"value1").unwrap();
    let result = db.close();
    assert!(result.is_ok());
}

#[test]
fn test_db_recovery() {
    let temp_dir = TempDir::new().unwrap();
    let db_path = temp_dir.path().to_path_buf();

    // First session: write data
    {
        let db = DB::open(&db_path, Options::default()).unwrap();
        db.put(b"key1", b"value1").unwrap();
        db.put(b"key2", b"value2").unwrap();
        db.close().unwrap();
    }

    // Second session: verify recovery
    {
        let _db = DB::open(&db_path, Options::default()).unwrap();
        // Note: Currently recovery from WAL is not fully implemented
        // This test will be enhanced in future
    }
}

#[test]
fn test_db_error_if_exists() {
    let temp_dir = TempDir::new().unwrap();

    // Create the database first
    let db = DB::open(temp_dir.path(), Options::default()).unwrap();
    db.close().unwrap();
    drop(db);

    // Try to open with error_if_exists
    let options = Options::default().create_if_missing(false);
    let mut options = options;
    options.error_if_exists = true;

    let result = DB::open(temp_dir.path(), options);
    assert!(result.is_err());
}

#[test]
fn test_manual_flush() {
    let temp_dir = TempDir::new().unwrap();
    let db = DB::open(temp_dir.path(), Options::default()).unwrap();

    // Write some data
    for i in 0..100 {
        let key = format!("key{}", i);
        let value = format!("value{}", i);
        db.put(key.as_bytes(), value.as_bytes()).unwrap();
    }

    // Manually flush
    db.flush().unwrap();

    // Verify data is still accessible
    for i in 0..100 {
        let key = format!("key{}", i);
        let expected = format!("value{}", i);
        let value = db.get(key.as_bytes()).unwrap();
        assert_eq!(value, Some(expected.as_bytes().to_vec()));
    }

    // Check that SSTable was created
    let sstables = db.tables();
    assert!(!sstables[0].is_empty(), "Level 0 should have SSTables after flush");
}

#[test]
fn test_auto_flush_on_memtable_full() {
    let temp_dir = TempDir::new().unwrap();

    // Use a small memtable size to trigger auto-flush
    let options = Options::default().memtable_size(1024); // 1KB
    let db = DB::open(temp_dir.path(), options).unwrap();

    // Write enough data to exceed memtable size
    for i in 0..200 {
        let key = format!("key{:08}", i);
        let value = vec![b'x'; 100]; // 100 bytes value
        db.put(key.as_bytes(), &value).unwrap();
    }

    // Check that immutable memtables were created
    let immutable = db.frozen_tables();
    assert!(!immutable.is_empty(), "Should have frozen memtables");
}

#[test]
fn test_flush_persistence() {
    let temp_dir = TempDir::new().unwrap();
    let db_path = temp_dir.path().to_path_buf();

    // First session: write and flush
    {
        let db = DB::open(&db_path, Options::default()).unwrap();

        for i in 0..50 {
            let key = format!("persist_key{}", i);
            let value = format!("persist_value{}", i);
            db.put(key.as_bytes(), value.as_bytes()).unwrap();
        }

        db.flush().unwrap();
        db.close().unwrap();
    }

    // Second session: verify data from SSTables
    {
        let db = DB::open(&db_path, Options::default()).unwrap();

        for i in 0..50 {
            let key = format!("persist_key{}", i);
            let expected = format!("persist_value{}", i);
            let value = db.get(key.as_bytes()).unwrap();
            assert_eq!(
                value,
                Some(expected.as_bytes().to_vec()),
                "Data should persist after flush and reopen"
            );
        }
    }
}

#[test]
fn test_flush_with_deletes() {
    let temp_dir = TempDir::new().unwrap();
    let db = DB::open(temp_dir.path(), Options::default()).unwrap();

    // Write and delete some keys
    for i in 0..100 {
        let key = format!("key{}", i);
        let value = format!("value{}", i);
        db.put(key.as_bytes(), value.as_bytes()).unwrap();
    }

    // Delete every other key
    for i in (0..100).step_by(2) {
        let key = format!("key{}", i);
        db.delete(key.as_bytes()).unwrap();
    }

    // Flush
    db.flush().unwrap();

    // Verify deleted keys are gone
    for i in 0..100 {
        let key = format!("key{}", i);
        let value = db.get(key.as_bytes()).unwrap();

        if i % 2 == 0 {
            assert_eq!(value, None, "Deleted keys should not be found");
        } else {
            let expected = format!("value{}", i);
            assert_eq!(value, Some(expected.as_bytes().to_vec()));
        }
    }
}

#[test]
fn lib_test_flush_empty_memtable() {
    let temp_dir = TempDir::new().unwrap();
    let db = DB::open(temp_dir.path(), Options::default()).unwrap();

    // Flush without any data
    let result = db.flush();
    assert!(result.is_ok(), "Flushing empty memtable should succeed");

    // Verify no SSTables were created
    let sstables = db.tables();
    assert!(sstables[0].is_empty(), "No SSTables should be created for empty memtable");
}

#[test]
fn test_multiple_flushes() {
    let temp_dir = TempDir::new().unwrap();
    let db = DB::open(temp_dir.path(), Options::default()).unwrap();

    // First batch
    for i in 0..50 {
        let key = format!("batch1_key{}", i);
        let value = format!("batch1_value{}", i);
        db.put(key.as_bytes(), value.as_bytes()).unwrap();
    }
    db.flush().unwrap();

    // Second batch
    for i in 0..50 {
        let key = format!("batch2_key{}", i);
        let value = format!("batch2_value{}", i);
        db.put(key.as_bytes(), value.as_bytes()).unwrap();
    }
    db.flush().unwrap();

    // Third batch
    for i in 0..50 {
        let key = format!("batch3_key{}", i);
        let value = format!("batch3_value{}", i);
        db.put(key.as_bytes(), value.as_bytes()).unwrap();
    }
    db.flush().unwrap();

    // Verify all SSTables exist
    let sstables = db.tables();
    assert_eq!(sstables[0].len(), 3, "Should have 3 SSTables at Level 0");

    // Verify all data is accessible
    for i in 0..50 {
        let key1 = format!("batch1_key{}", i);
        let key2 = format!("batch2_key{}", i);
        let key3 = format!("batch3_key{}", i);

        assert!(db.get(key1.as_bytes()).unwrap().is_some());
        assert!(db.get(key2.as_bytes()).unwrap().is_some());
        assert!(db.get(key3.as_bytes()).unwrap().is_some());
    }
}

#[test]
fn test_close_triggers_flush() {
    let temp_dir = TempDir::new().unwrap();
    let db_path = temp_dir.path().to_path_buf();

    // Write data and close (should auto-flush)
    {
        let db = DB::open(&db_path, Options::default()).unwrap();

        for i in 0..100 {
            let key = format!("key{}", i);
            let value = format!("value{}", i);
            db.put(key.as_bytes(), value.as_bytes()).unwrap();
        }

        db.close().unwrap(); // Should trigger flush
    }

    // Reopen and verify data
    {
        let db = DB::open(&db_path, Options::default()).unwrap();

        for i in 0..100 {
            let key = format!("key{}", i);
            let expected = format!("value{}", i);
            let value = db.get(key.as_bytes()).unwrap();
            assert_eq!(
                value,
                Some(expected.as_bytes().to_vec()),
                "Data should be persisted after close"
            );
        }
    }
}

#[test]
fn test_flush_only_tombstones_creates_sstable() {
    let temp_dir = TempDir::new().unwrap();
    let db = DB::open(temp_dir.path(), Options::default()).unwrap();

    // Write and then delete keys (only tombstones remain)
    for i in 0..50 {
        let key = format!("key{}", i);
        db.put(key.as_bytes(), b"value").unwrap();
        db.delete(key.as_bytes()).unwrap();
    }

    // Get initial SSTable count
    let initial_sstable_count = {
        let sstables = db.tables();
        sstables[0].len()
    };

    // Flush SHOULD create an SSTable (tombstones are preserved at Level 0)
    db.flush().unwrap();

    // Verify new SSTable was created
    let final_sstable_count = {
        let sstables = db.tables();
        sstables[0].len()
    };

    assert_eq!(
        final_sstable_count,
        initial_sstable_count + 1,
        "SSTable should be created even with only tombstones at Level 0"
    );

    // Verify all deleted keys return None
    for i in 0..50 {
        let key = format!("key{}", i);
        assert_eq!(db.get(key.as_bytes()).unwrap(), None);
    }
}

#[test]
fn test_flush_mixed_tombstones_and_values() {
    let temp_dir = TempDir::new().unwrap();
    let db = DB::open(temp_dir.path(), Options::default()).unwrap();

    // Write some values
    for i in 0..25 {
        let key = format!("keep{}", i);
        db.put(key.as_bytes(), b"value").unwrap();
    }

    // Write and delete other keys (tombstones)
    for i in 0..25 {
        let key = format!("delete{}", i);
        db.put(key.as_bytes(), b"value").unwrap();
        db.delete(key.as_bytes()).unwrap();
    }

    // Flush should create an SSTable (has valid entries)
    db.flush().unwrap();

    // Verify SSTable was created
    let sstable_count = {
        let sstables = db.tables();
        sstables[0].len()
    };

    assert_eq!(
        sstable_count, 1,
        "One SSTable should be created when MemTable has valid entries"
    );

    // Verify only valid keys are readable
    for i in 0..25 {
        let keep_key = format!("keep{}", i);
        let delete_key = format!("delete{}", i);

        assert!(
            db.get(keep_key.as_bytes()).unwrap().is_some(),
            "Valid entries should be in SSTable"
        );
        assert!(
            db.get(delete_key.as_bytes()).unwrap().is_none(),
            "Deleted entries should not be in SSTable"
        );
    }
}

#[test]
fn test_flush_empty_memtable_no_sstable() {
    let temp_dir = TempDir::new().unwrap();
    let db = DB::open(temp_dir.path(), Options::default()).unwrap();

    // Flush empty MemTable
    db.flush().unwrap();

    // Verify no SSTable was created
    let sstable_count = {
        let sstables = db.tables();
        sstables[0].len()
    };

    assert_eq!(sstable_count, 0, "No SSTable should be created for empty MemTable");
}

#[test]
fn test_flush_duplicate_overwrites() {
    let temp_dir = TempDir::new().unwrap();
    let db = DB::open(temp_dir.path(), Options::default()).unwrap();

    // Write the same key multiple times
    for i in 0..100 {
        db.put(b"same_key", format!("value{}", i).as_bytes()).unwrap();
    }

    // Flush should create SSTable with only one entry
    db.flush().unwrap();

    // Verify SSTable was created
    let sstable_count = {
        let sstables = db.tables();
        sstables[0].len()
    };

    assert_eq!(sstable_count, 1, "One SSTable should be created");

    // Verify we get the latest value
    let value = db.get(b"same_key").unwrap();
    assert_eq!(value, Some(b"value99".to_vec()));
}

#[test]
fn test_tombstone_sstable_files_created() {
    let temp_dir = TempDir::new().unwrap();
    let db_path = temp_dir.path().to_path_buf();

    {
        let db = DB::open(&db_path, Options::default()).unwrap();

        // Create a MemTable with only tombstones
        for i in 0..10 {
            let key = format!("key{}", i);
            db.put(key.as_bytes(), b"value").unwrap();
            db.delete(key.as_bytes()).unwrap();
        }

        db.flush().unwrap();
        db.close().unwrap();
    }

    // Check for .sst files (should exist with tombstones)
    let sst_files: Vec<u64> = db_path.numbers(FileKind::Table);

    assert_eq!(
        sst_files.len(),
        1,
        "SSTable with tombstones should be created at Level 0"
    );

    // Reopen and verify all keys are deleted
    {
        let db = DB::open(&db_path, Options::default()).unwrap();
        for i in 0..10 {
            let key = format!("key{}", i);
            assert_eq!(db.get(key.as_bytes()).unwrap(), None);
        }
    }
}
