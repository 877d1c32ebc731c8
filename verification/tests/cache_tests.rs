use aidb::cache::{BlockCache, CacheKey, CacheStats};

#[test]
fn test_cache_basic_operations() {
    let mut cache = BlockCache::new(1024);

    let key1 = CacheKey::new(1, 0);
    let value1 = vec![1, 2, 3, 4];

    // Initially empty
    assert_eq!(cache.get(&key1), None);

    // Insert and retrieve
    cache.insert(key1.clone(), value1.clone());
    assert_eq!(cache.get(&key1), Some(value1.clone()));

    // Stats should reflect operations
    let stats = cache.stats();
    assert_eq!(stats.lookups, 2); // 2 gets
    assert_eq!(stats.hits, 1); // 1 hit
    assert_eq!(stats.misses, 1); // 1 miss
    assert_eq!(stats.insertions, 1);
}

#[test]
fn test_cache_lru_eviction() {
    // Small cache that holds ~3 entries of size 4
    let mut cache = BlockCache::new(12);

    let key1 = CacheKey::new(1, 0);
    let key2 = CacheKey::new(2, 0);
    let key3 = CacheKey::new(3, 0);
    let key4 = CacheKey::new(4, 0);

    let value = vec![1, 2, 3, 4];

    // Insert 3 entries (fills cache)
    cache.insert(key1.clone(), value.clone());
    cache.insert(key2.clone(), value.clone());
    cache.insert(key3.clone(), value.clone());

    assert_eq!(cache.len(), 3);
    assert_eq!(cache.size(), 12);

    // Insert 4th entry should evict key1 (LRU)
    cache.insert(key4.clone(), value.clone());

    assert_eq!(cache.len(), 3);
    assert_eq!(cache.get(&key1), None); // Evicted
    assert_eq!(cache.get(&key2), Some(value.clone()));
    assert_eq!(cache.get(&key3), Some(value.clone()));
    assert_eq!(cache.get(&key4), Some(value.clone()));

    let stats = cache.stats();
    assert_eq!(stats.evictions, 1);
}

#[test]
fn test_cache_touch_updates_lru() {
    // Small cache
    let mut cache = BlockCache::new(12);

    let key1 = CacheKey::new(1, 0);
    let key2 = CacheKey::new(2, 0);
    let key3 = CacheKey::new(3, 0);
    let key4 = CacheKey::new(4, 0);

    let value = vec![1, 2, 3, 4];

    // Insert 3 entries
    cache.insert(key1.clone(), value.clone());
    cache.insert(key2.clone(), value.clone());
    cache.insert(key3.clone(), value.clone());

    // Access key1 to make it most recently used
    assert_eq!(cache.get(&key1), Some(value.clone()));

    // Insert 4th entry should evict key2 (now LRU), not key1
    cache.insert(key4.clone(), value.clone());

    assert_eq!(cache.get(&key1), Some(value.clone())); // Still there
    assert_eq!(cache.get(&key2), None); // Evicted
    assert_eq!(cache.get(&key3), Some(value.clone()));
    assert_eq!(cache.get(&key4), Some(value.clone()));
}

#[test]
fn test_cache_update_existing_key() {
    let mut cache = BlockCache::new(1024);

    let key = CacheKey::new(1, 0);
    let value1 = vec![1, 2, 3, 4];
    let value2 = vec![5, 6, 7, 8, 9];

    // Insert initial value
    cache.insert(key.clone(), value1.clone());
    assert_eq!(cache.get(&key), Some(value1));
    assert_eq!(cache.size(), 4);

    // Update with new value
    cache.insert(key.clone(), value2.clone());
    assert_eq!(cache.get(&key), Some(value2));
    assert_eq!(cache.size(), 5);
    assert_eq!(cache.len(), 1); // Still only 1 entry
}

#[test]
fn test_cache_clear() {
    let mut cache = BlockCache::new(1024);

    let key1 = CacheKey::new(1, 0);
    let key2 = CacheKey::new(2, 0);
    let value = vec![1, 2, 3, 4];

    cache.insert(key1.clone(), value.clone());
    cache.insert(key2.clone(), value.clone());

    assert_eq!(cache.len(), 2);
    assert_eq!(cache.size(), 8);

    cache.clear();

    assert_eq!(cache.len(), 0);
    assert_eq!(cache.size(), 0);
    assert_eq!(cache.get(&key1), None);
    assert_eq!(cache.get(&key2), None);
}

#[test]
fn test_cache_disabled_when_capacity_zero() {
    let mut cache = BlockCache::new(0);

    let key = CacheKey::new(1, 0);
    let value = vec![1, 2, 3, 4];

    cache.insert(key.clone(), value.clone());

    // Should not cache when capacity is 0
    assert_eq!(cache.get(&key), None);
    assert_eq!(cache.len(), 0);
    // the lookup is counted, but neither as a hit nor as a miss
    assert_eq!(
        cache.stats(),
        CacheStats { lookups: 1, hits: 0, misses: 0, insertions: 0, evictions: 0 }
    );
    // not even an empty block is cached
    cache.insert(key.clone(), Vec::new());
    assert!(cache.is_empty());
}

#[test]
fn test_cache_stats_hit_rate() {
    let mut cache = BlockCache::new(1024);

    let key1 = CacheKey::new(1, 0);
    let key2 = CacheKey::new(2, 0);
    let value = vec![1, 2, 3, 4];

    cache.insert(key1.clone(), value.clone());

    // 2 hits, 1 miss
    cache.get(&key1); // hit
    cache.get(&key1); // hit
    cache.get(&key2); // miss

    let stats = cache.stats();
    assert_eq!(stats.lookups, 3);
    assert_eq!(stats.hits, 2);
    assert_eq!(stats.misses, 1);
    let hit_rate = stats.hits as f64 / stats.lookups as f64;
    assert!((hit_rate - 0.666).abs() < 0.01);
}

#[test]
fn test_cache_reset_stats() {
    let mut cache = BlockCache::new(1024);

    let key = CacheKey::new(1, 0);
    let value = vec![1, 2, 3, 4];

    cache.insert(key.clone(), value.clone());
    cache.get(&key);

    let stats = cache.stats();
    assert!(stats.lookups > 0);

    cache.reset_stats();

    let stats = cache.stats();
    assert_eq!(stats.lookups, 0);
    assert_eq!(stats.hits, 0);
    assert_eq!(stats.misses, 0);
}

#[test]
fn test_cache_large_value_not_cached() {
    let mut cache = BlockCache::new(10); // Very small cache

    let key = CacheKey::new(1, 0);
    let value = vec![0u8; 100]; // Larger than capacity

    cache.insert(key.clone(), value);

    // Should not be cached
    assert_eq!(cache.get(&key), None);
    assert_eq!(cache.len(), 0);
}

#[test]
fn test_cache_evicts_as_many_as_it_takes() {
    let mut cache = BlockCache::new(10);
    cache.insert(CacheKey::new(1, 0), vec![0; 3]);
    cache.insert(CacheKey::new(2, 0), vec![0; 3]);
    cache.insert(CacheKey::new(3, 0), vec![0; 3]);
    // a block of eight bytes needs all but two bytes of the cache
    cache.insert(CacheKey::new(4, 0), vec![0; 8]);
    assert_eq!(cache.len(), 1);
    assert_eq!(cache.size(), 8);
    assert_eq!(cache.capacity(), 10);
    assert_eq!(cache.stats().evictions, 3);
    assert_eq!(cache.stats().insertions, 4);
    // a block of exactly the capacity fits
    cache.insert(CacheKey::new(5, 0), vec![0; 10]);
    assert_eq!(cache.len(), 1);
    assert_eq!(cache.get(&CacheKey::new(5, 0)), Some(vec![0; 10]));
    // replacing a block first makes room as if the block were new
    let mut cache = BlockCache::new(8);
    cache.insert(CacheKey::new(1, 0), vec![1; 4]);
    cache.insert(CacheKey::new(2, 0), vec![2; 4]);
    cache.insert(CacheKey::new(2, 0), vec![3; 4]);
    assert_eq!(cache.get(&CacheKey::new(1, 0)), None);
    assert_eq!(cache.get(&CacheKey::new(2, 0)), Some(vec![3; 4]));
    assert_eq!(cache.stats().evictions, 1);
}

#[test]
fn test_cache_stats_reset_alone() {
    let mut stats = CacheStats { lookups: 5, hits: 3, misses: 2, insertions: 1, evictions: 4 };
    stats.reset();
    assert_eq!(stats, CacheStats::default());
}
