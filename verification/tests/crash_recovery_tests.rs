#![allow(unused_imports)]
use aidb::{DBIterator, Directory, Error, FileId, FileKind, IteratorState, Options, WriteBatch};
use std::cell::RefCell;

/// Stands for the directory of a database: the files that are on disk.
#[allow(dead_code)]
struct TempDir {
    files: RefCell<Directory>,
}

#[allow(dead_code)]
impl TempDir {
    fn new() -> Result<TempDir, Error> {
        Ok(TempDir { files: RefCell::new(Directory::new()) })
    }

    fn path(&self) -> &TempDir {
        self
    }

    fn to_path_buf(&self) -> &TempDir {
        self
    }

    fn count(&self, kind: FileKind) -> usize {
        self.files.borrow().numbers(kind).len()
    }

    fn read(&self, kind: FileKind, number: u64) -> Option<Vec<u8>> {
        self.files.borrow().read(FileId { kind, number })
    }

    fn write(&self, kind: FileKind, number: u64, data: Vec<u8>) {
        self.files.borrow_mut().write(FileId { kind, number }, data);
    }

    fn remove(&self, kind: FileKind, number: u64) {
        self.files.borrow_mut().remove(FileId { kind, number });
    }

    fn numbers(&self, kind: FileKind) -> Vec<u64> {
        let mut numbers = self.files.borrow().numbers(kind);
        numbers.sort();
        numbers
    }
}

/// A database that is open in a directory. It hands every call on to the
/// engine; like a database on disk it leaves its files behind when it goes
/// away, after a last flush.
#[allow(dead_code)]
struct DB<'a> {
    engine: RefCell<aidb::DB>,
    home: &'a TempDir,
}

#[allow(dead_code)]
impl<'a> DB<'a> {
    fn open(home: &'a TempDir, options: Options) -> Result<DB<'a>, Error> {
        let engine = aidb::DB::open(&home.files.borrow(), options)?;
        let db = DB { engine: RefCell::new(engine), home };
        db.save();
        Ok(db)
    }

    fn save(&self) {
        let files = self.engine.borrow().files();
        *self.home.files.borrow_mut() = files;
    }

    fn put(&self, key: &[u8], value: &[u8]) -> Result<(), Error> {
        self.engine.borrow_mut().put(key, value)
    }

    fn get(&self, key: &[u8]) -> Result<Option<Vec<u8>>, Error> {
        self.engine.borrow().get(key)
    }

    fn get_at_sequence(&self, key: &[u8], sequence: u64) -> Result<Option<Vec<u8>>, Error> {
        self.engine.borrow().get_at_sequence(key, sequence)
    }

    fn delete(&self, key: &[u8]) -> Result<(), Error> {
        self.engine.borrow_mut().delete(key)
    }

    fn write(&self, batch: WriteBatch) -> Result<(), Error> {
        self.engine.borrow_mut().write(batch)
    }

    fn flush(&self) -> Result<(), Error> {
        let result = self.engine.borrow_mut().flush();
        self.save();
        result
    }

    fn maybe_trigger_compaction(&self) -> Result<(), Error> {
        let result = self.engine.borrow_mut().maybe_trigger_compaction();
        self.save();
        result
    }

    fn close(&self) -> Result<(), Error> {
        let result = self.engine.borrow_mut().close();
        self.save();
        result
    }

    fn snapshot(&self) -> Snapshot<'_, 'a> {
        Snapshot { db: self, inner: self.engine.borrow().snapshot() }
    }

    fn iter(&self) -> Iter<'_, 'a> {
        let state = self.engine.borrow().iter().unwrap().detach();
        Iter { db: self, state: Some(state) }
    }

    fn scan(&self, start: Option<&[u8]>, end: Option<&[u8]>) -> Result<Iter<'_, 'a>, Error> {
        let state = self.engine.borrow().scan(start, end)?.detach();
        Ok(Iter { db: self, state: Some(state) })
    }

    /// The tables of every level, each standing as a 0 in the list of
    /// its level.
    fn tables(&self) -> Vec<Vec<u64>> {
        let engine = self.engine.borrow();
        (0..engine.options().max_levels).map(|l| vec![0; engine.num_level_files(l)]).collect()
    }

    /// The frozen MemTables, each standing as a 0.
    fn frozen_tables(&self) -> Vec<u64> {
        vec![0; self.engine.borrow().num_immutable_memtables()]
    }

    fn level_files(&self, level: usize) -> usize {
        self.engine.borrow().num_level_files(level)
    }

    fn frozen(&self) -> usize {
        self.engine.borrow().num_immutable_memtables()
    }
}

impl<'a> Drop for DB<'a> {
    fn drop(&mut self) {
        let _ = self.engine.borrow_mut().close();
        self.save();
    }
}

/// Ends a database as a crash does: nothing is flushed, and what is on
/// disk is what was durable.
#[allow(dead_code)]
fn simulate_crash(db: DB) {
    db.save();
    std::mem::forget(db);
}

#[allow(dead_code)]
struct Snapshot<'d, 'a> {
    db: &'d DB<'a>,
    inner: aidb::Snapshot,
}

#[allow(dead_code)]
impl<'d, 'a> Snapshot<'d, 'a> {
    fn get(&self, key: &[u8]) -> Result<Option<Vec<u8>>, Error> {
        self.inner.get(&self.db.engine.borrow(), key)
    }

    fn sequence(&self) -> u64 {
        self.inner.sequence()
    }
}

/// An iterator that borrows the engine only while it moves.
#[allow(dead_code)]
struct Iter<'d, 'a> {
    db: &'d DB<'a>,
    state: Option<IteratorState>,
}

#[allow(dead_code)]
impl<'d, 'a> Iter<'d, 'a> {
    fn with<R>(&mut self, op: impl FnOnce(&mut DBIterator) -> R) -> R {
        let engine = self.db.engine.borrow();
        let mut it = DBIterator::attach(&engine, self.state.take().unwrap());
        let result = op(&mut it);
        self.state = Some(it.detach());
        result
    }

    fn valid(&self) -> bool {
        self.state.as_ref().unwrap().current.is_some()
    }

    fn key(&self) -> &[u8] {
        self.state.as_ref().unwrap().current.as_ref().expect("Iterator not valid").0.as_slice()
    }

    fn value(&self) -> &[u8] {
        self.state.as_ref().unwrap().current.as_ref().expect("Iterator not valid").1.as_slice()
    }

    fn next(&mut self) {
        self.with(|it| it.next())
    }

    fn prev(&mut self) {
        self.with(|it| it.prev())
    }

    fn seek(&mut self, target: &[u8]) {
        self.with(|it| it.seek(target))
    }

    fn seek_to_first(&mut self) {
        self.with(|it| it.seek_to_first())
    }

    fn seek_to_last(&mut self) {
        self.with(|it| it.seek_to_last())
    }
}
use std::sync::Arc;

#[test]
fn test_recovery_after_write_crash() {
    let dir = TempDir::new().unwrap();
    let path = dir.path().to_path_buf();

    // First session: write data and simulate crash
    {
        let db = DB::open(&path, Options::default()).unwrap();

        // Write some data
        for i in 0..100 {
            let key = format!("key_{}", i);
            let value = format!("value_{}", i);
            db.put(key.as_bytes(), value.as_bytes()).unwrap();
        }

        // Simulate crash (no clean shutdown)
        simulate_crash(db);
    }

    // Second session: recover and verify
    {
        let db = DB::open(&path, Options::default()).unwrap();

        // All WAL-persisted data should be recovered
        for i in 0..100 {
            let key = format!("key_{}", i);
            let expected = format!("value_{}", i);
            let result = db.get(key.as_bytes()).unwrap();
            assert_eq!(
                result,
                Some(expected.as_bytes().to_vec()),
                "Key {} should be recovered after crash",
                key
            );
        }
    }
}

#[test]
fn test_recovery_partial_writes() {
    let dir = TempDir::new().unwrap();
    let path = dir.path().to_path_buf();

    // Session 1: Write and flush some data
    {
        let db = DB::open(&path, Options::default()).unwrap();

        for i in 0..50 {
            let key = format!("stable_key_{}", i);
            db.put(key.as_bytes(), b"stable_value").unwrap();
        }

        db.flush().unwrap();

        // Write more data without flush
        for i in 0..50 {
            let key = format!("partial_key_{}", i);
            db.put(key.as_bytes(), b"partial_value").unwrap();
        }

        simulate_crash(db);
    }

    // Session 2: Recover
    {
        let db = DB::open(&path, Options::default()).unwrap();

        // Flushed data should be present
        for i in 0..50 {
            let key = format!("stable_key_{}", i);
            assert_eq!(db.get(key.as_bytes()).unwrap(), Some(b"stable_value".to_vec()));
        }

        // WAL data should also be recovered
        for i in 0..50 {
            let key = format!("partial_key_{}", i);
            assert_eq!(db.get(key.as_bytes()).unwrap(), Some(b"partial_value".to_vec()));
        }
    }
}

#[test]
fn test_recovery_during_flush() {
    let dir = TempDir::new().unwrap();
    let path = dir.path().to_path_buf();

    let options = Options {
        memtable_size: 1024 * 64, // Small memtable to trigger flush
        ..Default::default()
    };

    // Session 1: Fill memtable to trigger auto-flush
    {
        let db = DB::open(&path, options.clone()).unwrap();

        // Write enough to trigger flush
        for i in 0..1000 {
            let key = format!("key_{:06}", i);
            let value = vec![b'x'; 100];
            db.put(key.as_bytes(), &value).unwrap();
        }

        // Note: Flush may be in progress, simulate crash
        simulate_crash(db);
    }

    // Session 2: Recover - data should be consistent
    {
        let db = DB::open(&path, options).unwrap();

        // Verify all data (either from SSTable or WAL)
        for i in 0..1000 {
            let key = format!("key_{:06}", i);
            let result = db.get(key.as_bytes()).unwrap();

            // Data should exist (either flushed or in WAL)
            assert!(result.is_some(), "Key {} should exist after recovery", key);
            assert_eq!(result.unwrap().len(), 100);
        }
    }
}

#[test]
fn test_recovery_with_deletes() {
    let dir = TempDir::new().unwrap();
    let path = dir.path().to_path_buf();

    // Session 1: Write and delete data
    {
        let db = DB::open(&path, Options::default()).unwrap();

        // Write data
        for i in 0..100 {
            let key = format!("key_{}", i);
            db.put(key.as_bytes(), b"value").unwrap();
        }

        // Delete half of it
        for i in 0..50 {
            let key = format!("key_{}", i);
            db.delete(key.as_bytes()).unwrap();
        }

        simulate_crash(db);
    }

    // Session 2: Recover and verify
    {
        let db = DB::open(&path, Options::default()).unwrap();

        // Deleted keys should not exist
        for i in 0..50 {
            let key = format!("key_{}", i);
            assert_eq!(
                db.get(key.as_bytes()).unwrap(),
                None,
                "Deleted key {} should not exist",
                key
            );
        }

        // Remaining keys should exist
        for i in 50..100 {
            let key = format!("key_{}", i);
            assert_eq!(
                db.get(key.as_bytes()).unwrap(),
                Some(b"value".to_vec()),
                "Key {} should exist",
                key
            );
        }
    }
}

#[test]
fn test_multiple_crash_recovery_cycles() {
    let dir = TempDir::new().unwrap();
    let path = dir.path().to_path_buf();

    // Cycle 1
    {
        let db = DB::open(&path, Options::default()).unwrap();
        db.put(b"cycle1", b"data1").unwrap();
        simulate_crash(db);
    }

    // Cycle 2
    {
        let db = DB::open(&path, Options::default()).unwrap();
        assert_eq!(db.get(b"cycle1").unwrap(), Some(b"data1".to_vec()));
        db.put(b"cycle2", b"data2").unwrap();
        simulate_crash(db);
    }

    // Cycle 3
    {
        let db = DB::open(&path, Options::default()).unwrap();
        assert_eq!(db.get(b"cycle1").unwrap(), Some(b"data1".to_vec()));
        assert_eq!(db.get(b"cycle2").unwrap(), Some(b"data2".to_vec()));
        db.put(b"cycle3", b"data3").unwrap();
        simulate_crash(db);
    }

    // Final verification
    {
        let db = DB::open(&path, Options::default()).unwrap();
        assert_eq!(db.get(b"cycle1").unwrap(), Some(b"data1".to_vec()));
        assert_eq!(db.get(b"cycle2").unwrap(), Some(b"data2".to_vec()));
        assert_eq!(db.get(b"cycle3").unwrap(), Some(b"data3".to_vec()));
    }
}

#[test]
fn test_data_consistency_after_crash() {
    let dir = TempDir::new().unwrap();
    let path = dir.path().to_path_buf();

    // Session 1: Create consistent state
    {
        let db = DB::open(&path, Options::default()).unwrap();

        // Write related data (e.g., user and their posts)
        db.put(b"user:1:name", b"Alice").unwrap();
        db.put(b"user:1:post:1", b"Hello World").unwrap();
        db.put(b"user:1:post:2", b"Second Post").unwrap();

        simulate_crash(db);
    }

    // Session 2: Verify consistency
    {
        let db = DB::open(&path, Options::default()).unwrap();

        // All related data should be present or none
        let name = db.get(b"user:1:name").unwrap();
        let post1 = db.get(b"user:1:post:1").unwrap();
        let post2 = db.get(b"user:1:post:2").unwrap();

        // Since WAL persists, all should be present
        assert_eq!(name, Some(b"Alice".to_vec()));
        assert_eq!(post1, Some(b"Hello World".to_vec()));
        assert_eq!(post2, Some(b"Second Post".to_vec()));
    }
}

#[test]
fn test_recovery_empty_database() {
    let dir = TempDir::new().unwrap();
    let path = dir.path().to_path_buf();

    // Session 1: Open and immediately crash
    {
        let db = DB::open(&path, Options::default()).unwrap();
        simulate_crash(db);
    }

    // Session 2: Should recover empty database
    {
        let db = DB::open(&path, Options::default()).unwrap();
        assert_eq!(db.get(b"any_key").unwrap(), None);
    }
}

#[test]
fn test_recovery_after_proper_shutdown() {
    let dir = TempDir::new().unwrap();
    let path = dir.path().to_path_buf();

    // Session 1: Normal operation with proper close
    {
        let db = DB::open(&path, Options::default()).unwrap();

        for i in 0..100 {
            let key = format!("key_{}", i);
            db.put(key.as_bytes(), b"value").unwrap();
        }

        // Proper shutdown (drop with flush)
        drop(db);
    }

    // Session 2: Should open normally
    {
        let db = DB::open(&path, Options::default()).unwrap();

        for i in 0..100 {
            let key = format!("key_{}", i);
            assert_eq!(db.get(key.as_bytes()).unwrap(), Some(b"value".to_vec()));
        }
    }
}

#[test]
fn test_wal_replay_correctness() {
    let dir = TempDir::new().unwrap();
    let path = dir.path().to_path_buf();

    // Session 1: Perform operations that should be in WAL
    {
        let db = DB::open(&path, Options::default()).unwrap();

        // Initial write
        db.put(b"counter", b"0").unwrap();

        // Multiple updates
        for i in 1..=10 {
            db.put(b"counter", format!("{}", i).as_bytes()).unwrap();
        }

        simulate_crash(db);
    }

    // Session 2: Verify WAL replay gives correct final state
    {
        let db = DB::open(&path, Options::default()).unwrap();

        // Should have the last written value
        assert_eq!(db.get(b"counter").unwrap(), Some(b"10".to_vec()));
    }
}

#[test]
fn test_recovery_mixed_operations() {
    let dir = TempDir::new().unwrap();
    let path = dir.path().to_path_buf();

    // Session 1: Mix of puts and deletes
    {
        let db = DB::open(&path, Options::default()).unwrap();

        db.put(b"key1", b"value1").unwrap();
        db.put(b"key2", b"value2").unwrap();
        db.delete(b"key1").unwrap();
        db.put(b"key3", b"value3").unwrap();
        db.put(b"key2", b"value2_updated").unwrap();

        simulate_crash(db);
    }

    // Session 2: Verify final state
    {
        let db = DB::open(&path, Options::default()).unwrap();

        assert_eq!(db.get(b"key1").unwrap(), None);
        assert_eq!(db.get(b"key2").unwrap(), Some(b"value2_updated".to_vec()));
        assert_eq!(db.get(b"key3").unwrap(), Some(b"value3".to_vec()));
    }
}

#[test]
fn test_recovery_with_wal_corruption() {
    let dir = TempDir::new().unwrap();
    let path = dir.path().to_path_buf();

    // Session 1: Write data but crash before flush (so data is only in WAL)
    {
        let db = DB::open(&path, Options::default()).unwrap();

        // Write data that will only be in WAL (not flushed to SSTable)
        for i in 0..50 {
            let key = format!("wal_key_{}", i);
            db.put(key.as_bytes(), b"wal_value").unwrap();
        }

        // Simulate crash (don't flush, don't close properly)
        simulate_crash(db);
    }

    // Corrupt the WAL file by overwriting it with half as many zeros
    let mut corrupted = false;
    for number in path.numbers(FileKind::Log) {
        let size = path.read(FileKind::Log, number).unwrap().len();
        if size > 100 {
            path.write(FileKind::Log, number, vec![0u8; size / 2]);
            corrupted = true;
        }
    }

    assert!(corrupted, "WAL file should have been found and corrupted");

    // Session 2: Recovery should handle corruption gracefully
    {
        let db_result = DB::open(&path, Options::default());

        match db_result {
            Ok(db) => {
                let mut recovered = 0;
                let mut lost = 0;

                for i in 0..50 {
                    let key = format!("wal_key_{}", i);
                    if db.get(key.as_bytes()).unwrap().is_some() {
                        recovered += 1;
                    } else {
                        lost += 1;
                    }
                }

                println!("Recovered {} keys, lost {} keys due to WAL corruption", recovered, lost);

                // We expect some data loss due to corruption
                assert!(lost > 0, "Some data should be lost due to WAL corruption");
            }
            Err(e) => {
                // Corruption detected and database refused to open
                println!("Database correctly detected WAL corruption: {:?}", e);
            }
        }
    }
}

#[test]
fn test_synced_writes_survive_a_crash_and_unsynced_ones_need_not() {
    let dir = TempDir::new().unwrap();
    {
        let db = DB::open(dir.path(), Options::default()).unwrap();
        db.put(b"after_crash", b"1").unwrap();
        simulate_crash(db);
    }
    {
        let db = DB::open(dir.path(), Options::default()).unwrap();
        assert_eq!(db.get(b"after_crash").unwrap(), Some(b"1".to_vec()));
    }
    // without a log nothing but a flush makes a write durable
    let dir = TempDir::new().unwrap();
    {
        let db = DB::open(dir.path(), Options::default().use_wal(false)).unwrap();
        db.put(b"after_crash", b"1").unwrap();
        simulate_crash(db);
    }
    let db = DB::open(dir.path(), Options::default()).unwrap();
    assert_eq!(db.get(b"after_crash").unwrap(), None);
    // a log that is written but not synced loses what was not synced
    let dir = TempDir::new().unwrap();
    {
        let mut options = Options::default();
        options.sync_wal = false;
        let db = DB::open(dir.path(), options).unwrap();
        db.put(b"k", b"v").unwrap();
        simulate_crash(db);
    }
    let db = DB::open(dir.path(), Options::default()).unwrap();
    assert_eq!(db.get(b"k").unwrap(), None);
}
