#![allow(unused_imports)]
use aidb::{DBIterator, Directory, Error, FileId, FileKind, IteratorState, Options, WriteBatch};
use std::cell::RefCell;

/// Stands for the directory of a database: the files that are on disk.
#[allow(dead_code)]
struct TempDir {
    files: RefCell<Directory>,
}

#[allow(dead_code)]
impl TempDir {
    fn new() -> Result<TempDir, Error> {
        Ok(TempDir { files: RefCell::new(Directory::new()) })
    }

    fn path(&self) -> &TempDir {
        self
    }

    fn to_path_buf(&self) -> &TempDir {
        self
    }

    fn count(&self, kind: FileKind) -> usize {
        self.files.borrow().numbers(kind).len()
    }

    fn read(&self, kind: FileKind, number: u64) -> Option<Vec<u8>> {
        self.files.borrow().read(FileId { kind, number })
    }

    fn write(&self, kind: FileKind, number: u64, data: Vec<u8>) {
        self.files.borrow_mut().write(FileId { kind, number }, data);
    }

    fn remove(&self, kind: FileKind, number: u64) {
        self.files.borrow_mut().remove(FileId { kind, number });
    }

    fn numbers(&self, kind: FileKind) -> Vec<u64> {
        let mut numbers = self.files.borrow().numbers(kind);
        numbers.sort();
        numbers
    }
}

/// A database that is open in a directory. It hands every call on to the
/// engine; like a database on disk it leaves its files behind when it goes
/// away, after a last flush.
#[allow(dead_code)]
struct DB<'a> {
    engine: RefCell<aidb::DB>,
    home: &'a TempDir,
}

#[allow(dead_code)]
impl<'a> DB<'a> {
    fn open(home: &'a TempDir, options: Options) -> Result<DB<'a>, Error> {
        let engine = aidb::DB::open(&home.files.borrow(), options)?;
        let db = DB { engine: RefCell::new(engine), home };
        db.save();
        Ok(db)
    }

    fn save(&self) {
        let files = self.engine.borrow().files();
        *self.home.files.borrow_mut() = files;
    }

    fn put(&self, key: &[u8], value: &[u8]) -> Result<(), Error> {
        self.engine.borrow_mut().put(key, value)
    }

    fn get(&self, key: &[u8]) -> Result<Option<Vec<u8>>, Error> {
        self.engine.borrow().get(key)
    }

    fn get_at_sequence(&self, key: &[u8], sequence: u64) -> Result<Option<Vec<u8>>, Error> {
        self.engine.borrow().get_at_sequence(key, sequence)
    }

    fn delete(&self, key: &[u8]) -> Result<(), Error> {
        self.engine.borrow_mut().delete(key)
    }

    fn write(&self, batch: WriteBatch) -> Result<(), Error> {
        self.engine.borrow_mut().write(batch)
    }

    fn flush(&self) -> Result<(), Error> {
        let result = self.engine.borrow_mut().flush();
        self.save();
        result
    }

    fn maybe_trigger_compaction(&self) -> Result<(), Error> {
        let result = self.engine.borrow_mut().maybe_trigger_compaction();
        self.save();
        result
    }

    fn close(&self) -> Result<(), Error> {
        let result = self.engine.borrow_mut().close();
        self.save();
        result
    }

    fn snapshot(&self) -> Snapshot<'_, 'a> {
        Snapshot { db: self, inner: self.engine.borrow().snapshot() }
    }

    fn iter(&self) -> Iter<'_, 'a> {
        let state = self.engine.borrow().iter().unwrap().detach();
        Iter { db: self, state: Some(state) }
    }

    fn scan(&self, start: Option<&[u8]>, end: Option<&[u8]>) -> Result<Iter<'_, 'a>, Error> {
        let state = self.engine.borrow().scan(start, end)?.detach();
        Ok(Iter { db: self, state: Some(state) })
    }

    /// The tables of every level, each standing as a 0 in the list of
    /// its level.
    fn tables(&self) -> Vec<Vec<u64>> {
        let engine = self.engine.borrow();
        (0..engine.options().max_levels).map(|l| vec![0; engine.num_level_files(l)]).collect()
    }

    /// The frozen MemTables, each standing as a 0.
    fn frozen_tables(&self) -> Vec<u64> {
        vec![0; self.engine.borrow().num_immutable_memtables()]
    }

    fn level_files(&self, level: usize) -> usize {
        self.engine.borrow().num_level_files(level)
    }

    fn frozen(&self) -> usize {
        self.engine.borrow().num_immutable_memtables()
    }
}

impl<'a> Drop for DB<'a> {
    fn drop(&mut self) {
        let _ = self.engine.borrow_mut().close();
        self.save();
    }
}

/// Ends a database as a crash does: nothing is flushed, and what is on
/// disk is what was durable.
#[allow(dead_code)]
fn simulate_crash(db: DB) {
    db.save();
    std::mem::forget(db);
}

#[allow(dead_code)]
struct Snapshot<'d, 'a> {
    db: &'d DB<'a>,
    inner: aidb::Snapshot,
}

#[allow(dead_code)]
impl<'d, 'a> Snapshot<'d, 'a> {
    fn get(&self, key: &[u8]) -> Result<Option<Vec<u8>>, Error> {
        self.inner.get(&self.db.engine.borrow(), key)
    }

    fn sequence(&self) -> u64 {
        self.inner.sequence()
    }
}

/// An iterator that borrows the engine only while it moves.
#[allow(dead_code)]
struct Iter<'d, 'a> {
    db: &'d DB<'a>,
    state: Option<IteratorState>,
}

#[allow(dead_code)]
impl<'d, 'a> Iter<'d, 'a> {
    fn with<R>(&mut self, op: impl FnOnce(&mut DBIterator) -> R) -> R {
        let engine = self.db.engine.borrow();
        let mut it = DBIterator::attach(&engine, self.state.take().unwrap());
        let result = op(&mut it);
        self.state = Some(it.detach());
        result
    }

    fn valid(&self) -> bool {
        self.state.as_ref().unwrap().current.is_some()
    }

    fn key(&self) -> &[u8] {
        self.state.as_ref().unwrap().current.as_ref().expect("Iterator not valid").0.as_slice()
    }

    fn value(&self) -> &[u8] {
        self.state.as_ref().unwrap().current.as_ref().expect("Iterator not valid").1.as_slice()
    }

    fn next(&mut self) {
        self.with(|it| it.next())
    }

    fn prev(&mut self) {
        self.with(|it| it.prev())
    }

    fn seek(&mut self, target: &[u8]) {
        self.with(|it| it.seek(target))
    }

    fn seek_to_first(&mut self) {
        self.with(|it| it.seek_to_first())
    }

    fn seek_to_last(&mut self) {
        self.with(|it| it.seek_to_last())
    }
}
use std::sync::Arc;

#[test]
fn test_level0_compaction_trigger() {

    let temp_dir = TempDir::new().unwrap();
    let options = Options::default()
        .memtable_size(1024) // Small memtable to trigger flush
        .block_size(512); // Small blocks

    let db = DB::open(temp_dir.path(), options).unwrap();

    // Write enough data to create 4+ SSTables at Level 0
    for batch in 0..5 {
        for i in 0..50 {
            let key = format!("batch{:02}_key{:04}", batch, i);
            let value = vec![b'x'; 100];
            db.put(key.as_bytes(), &value).unwrap();
        }
        // Manually flush to create SSTable at Level 0
        db.flush().unwrap();
    }

    // After 5 flushes, compaction should have been triggered
    // Verify all data is still accessible
    for batch in 0..5 {
        for i in 0..50 {
            let key = format!("batch{:02}_key{:04}", batch, i);
            let value = db.get(key.as_bytes()).unwrap();
            assert!(value.is_some(), "Key {} should exist", key);
        }
    }
}

#[test]
fn test_compaction_removes_duplicates() {

    let temp_dir = TempDir::new().unwrap();
    let options = Options::default().memtable_size(1024);

    let db = DB::open(temp_dir.path(), options).unwrap();

    // Write same key multiple times across different SSTables
    for version in 0..10 {
        let key = b"duplicate_key";
        let value = format!("version_{}", version);
        db.put(key, value.as_bytes()).unwrap();

        if version % 2 == 1 {
            db.flush().unwrap();
        }
    }

    // Final flush
    db.flush().unwrap();

    // Verify we can still read the latest value
    let value = db.get(b"duplicate_key").unwrap();
    assert!(value.is_some());
    assert_eq!(value.unwrap(), b"version_9");
}

#[test]
fn test_compaction_removes_deleted_entries() {

    let temp_dir = TempDir::new().unwrap();
    let options = Options::default().memtable_size(1024);

    let db = DB::open(temp_dir.path(), options).unwrap();

    // Write and delete keys
    for i in 0..100 {
        let key = format!("key{:04}", i);
        db.put(key.as_bytes(), b"value").unwrap();
    }
    db.flush().unwrap();

    // Delete half of the keys
    for i in 0..50 {
        let key = format!("key{:04}", i);
        db.delete(key.as_bytes()).unwrap();
    }
    db.flush().unwrap();

    // Trigger more flushes to cause compaction
    for i in 100..300 {
        let key = format!("key{:04}", i);
        db.put(key.as_bytes(), b"value").unwrap();
    }
    db.flush().unwrap();

    // Verify deleted keys are gone
    for i in 0..50 {
        let key = format!("key{:04}", i);
        assert_eq!(db.get(key.as_bytes()).unwrap(), None);
    }

    // Verify non-deleted keys exist
    for i in 50..100 {
        let key = format!("key{:04}", i);
        assert!(db.get(key.as_bytes()).unwrap().is_some());
    }
}

#[test]
fn test_compaction_maintains_sort_order() {

    let temp_dir = TempDir::new().unwrap();
    let options = Options::default().memtable_size(1024);

    let db = DB::open(temp_dir.path(), options).unwrap();

    // Write keys in random order across multiple SSTables
    let keys = vec![
        "gamma", "alpha", "epsilon", "beta", "delta", "zeta", "theta", "iota",
    ];

    for (batch, key) in keys.iter().enumerate() {
        let value = format!("value_{}", batch);
        db.put(key.as_bytes(), value.as_bytes()).unwrap();

        if batch % 2 == 1 {
            db.flush().unwrap();
        }
    }

    db.flush().unwrap();

    // Verify all keys are accessible
    for (batch, key) in keys.iter().enumerate() {
        let value = db.get(key.as_bytes()).unwrap();
        assert!(value.is_some());
        let expected = format!("value_{}", batch);
        assert_eq!(value.unwrap(), expected.as_bytes());
    }
}

#[test]
fn test_compaction_across_restarts() {

    let temp_dir = TempDir::new().unwrap();
    let db_path = temp_dir.path().to_path_buf();

    // First session: create data and trigger compaction
    {
        let options = Options::default().memtable_size(1024);
        let db = DB::open(&db_path, options).unwrap();

        for batch in 0..5 {
            for i in 0..30 {
                let key = format!("batch{:02}_key{:04}", batch, i);
                let value = vec![b'x'; 100];
                db.put(key.as_bytes(), &value).unwrap();
            }
            db.flush().unwrap();
        }

        db.close().unwrap();
    }

    // Second session: verify data after restart
    {
        let options = Options::default();
        let db = DB::open(&db_path, options).unwrap();

        for batch in 0..5 {
            for i in 0..30 {
                let key = format!("batch{:02}_key{:04}", batch, i);
                let value = db.get(key.as_bytes()).unwrap();
                assert!(value.is_some(), "Key {} should exist after restart", key);
            }
        }
    }
}

#[test]
fn test_large_dataset_compaction() {

    let temp_dir = TempDir::new().unwrap();
    let options = Options::default().memtable_size(4096);

    let db = DB::open(temp_dir.path(), options).unwrap();

    // Write a large dataset
    for i in 0..1000 {
        let key = format!("key{:08}", i);
        let value = format!("value{:08}", i);
        db.put(key.as_bytes(), value.as_bytes()).unwrap();

        // Flush every 200 entries
        if i % 200 == 199 {
            db.flush().unwrap();
        }
    }

    // Final flush
    db.flush().unwrap();

    // Verify all data
    for i in 0..1000 {
        let key = format!("key{:08}", i);
        let expected = format!("value{:08}", i);
        let value = db.get(key.as_bytes()).unwrap();
        assert_eq!(value, Some(expected.as_bytes().to_vec()));
    }
}

#[test]
fn test_compaction_with_overwrites() {

    let temp_dir = TempDir::new().unwrap();
    let options = Options::default().memtable_size(1024);

    let db = DB::open(temp_dir.path(), options).unwrap();

    // Write initial data
    for i in 0..50 {
        let key = format!("key{:04}", i);
        db.put(key.as_bytes(), b"original").unwrap();
    }
    db.flush().unwrap();

    // Overwrite some keys
    for i in 0..25 {
        let key = format!("key{:04}", i);
        db.put(key.as_bytes(), b"updated").unwrap();
    }
    db.flush().unwrap();

    // Trigger more writes to cause compaction
    for i in 50..150 {
        let key = format!("key{:04}", i);
        db.put(key.as_bytes(), b"new").unwrap();
    }
    db.flush().unwrap();

    // Verify updated keys
    for i in 0..25 {
        let key = format!("key{:04}", i);
        let value = db.get(key.as_bytes()).unwrap();
        assert_eq!(value, Some(b"updated".to_vec()));
    }

    // Verify original keys
    for i in 25..50 {
        let key = format!("key{:04}", i);
        let value = db.get(key.as_bytes()).unwrap();
        assert_eq!(value, Some(b"original".to_vec()));
    }

    // Verify new keys
    for i in 50..150 {
        let key = format!("key{:04}", i);
        let value = db.get(key.as_bytes()).unwrap();
        assert_eq!(value, Some(b"new".to_vec()));
    }
}
