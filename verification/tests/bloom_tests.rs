use aidb::filter::bloom::FnvHasher;
use aidb::filter::{BloomFilter, Filter};

// The sizes that the formulas for the best filter give: the number of
// bits is -n ln p / (ln 2)^2, and the number of hashes (m / n) ln 2.
fn optimal_num_bits(expected_keys: usize, false_positive_rate: f64) -> usize {
    let n = expected_keys as f64;
    let p = false_positive_rate.max(0.0001).min(0.9999);
    let num_bits = (-n * p.ln() / (2.0_f64.ln().powi(2))).ceil() as usize;
    num_bits.max(64)
}

fn optimal_num_hashes(num_bits: usize, expected_keys: usize) -> u32 {
    if expected_keys == 0 {
        return 1;
    }
    let k = ((num_bits as f64 / expected_keys as f64) * 2.0_f64.ln()).ceil() as u32;
    k.clamp(1, 30)
}

fn new_filter(expected_keys: usize, false_positive_rate: f64) -> BloomFilter {
    if expected_keys == 0 {
        return BloomFilter::with_bits_and_hashes(64, 1);
    }
    let num_bits = optimal_num_bits(expected_keys, false_positive_rate);
    let num_hashes = optimal_num_hashes(num_bits, expected_keys);
    BloomFilter::with_bits_and_hashes(num_bits, num_hashes)
}

fn estimated_false_positive_rate(filter: &BloomFilter, num_keys: usize) -> f64 {
    if num_keys == 0 {
        return 0.0;
    }
    let k = filter.num_hashes() as f64;
    let n = num_keys as f64;
    let m = filter.num_bits() as f64;
    let exp = (-k * n / m).exp();
    (1.0 - exp).powf(k)
}

#[test]
fn test_bloom_filter_basic() {
    let mut filter = new_filter(100, 0.01);

    // Add some keys
    filter.add(b"key1");
    filter.add(b"key2");
    filter.add(b"key3");

    // Check membership
    assert!(filter.may_contain(b"key1"));
    assert!(filter.may_contain(b"key2"));
    assert!(filter.may_contain(b"key3"));
}

#[test]
fn test_bloom_filter_no_false_negatives() {
    let mut filter = new_filter(1000, 0.01);

    // Add many keys
    let keys: Vec<Vec<u8>> = (0..1000).map(|i| format!("key{}", i).into_bytes()).collect();

    for key in &keys {
        filter.add(key);
    }

    // All added keys should be found (no false negatives)
    for key in &keys {
        assert!(
            filter.may_contain(key),
            "False negative detected for key: {:?}",
            String::from_utf8_lossy(key)
        );
    }
}

#[test]
fn test_bloom_filter_false_positive_rate() {
    let num_keys = 10000;
    let target_fp_rate = 0.01; // 1%

    let mut filter = new_filter(num_keys, target_fp_rate);

    // Add keys
    for i in 0..num_keys {
        let key = format!("key{}", i);
        filter.add(key.as_bytes());
    }

    // Test with non-existent keys
    let test_keys = 10000;
    let mut false_positives = 0;

    for i in num_keys..(num_keys + test_keys) {
        let key = format!("key{}", i);
        if filter.may_contain(key.as_bytes()) {
            false_positives += 1;
        }
    }

    let actual_fp_rate = false_positives as f64 / test_keys as f64;

    println!("Target FP rate: {:.4}", target_fp_rate);
    println!("Actual FP rate: {:.4}", actual_fp_rate);
    println!("False positives: {}/{}", false_positives, test_keys);

    // Allow some margin (2x the target rate) due to randomness
    assert!(
        actual_fp_rate < target_fp_rate * 2.0,
        "False positive rate too high: {:.4} (expected < {:.4})",
        actual_fp_rate,
        target_fp_rate * 2.0
    );
}

#[test]
fn bloom_test_bloom_filter_encode_decode() {
    let mut filter = new_filter(100, 0.01);

    // Add some keys
    filter.add(b"key1");
    filter.add(b"key2");
    filter.add(b"key3");

    // Encode
    let encoded = filter.encode();

    // Decode
    let decoded = BloomFilter::decode(&encoded).unwrap();

    // Verify decoded filter works the same
    assert!(decoded.may_contain(b"key1"));
    assert!(decoded.may_contain(b"key2"));
    assert!(decoded.may_contain(b"key3"));

    assert_eq!(filter.num_hashes(), decoded.num_hashes());
    assert_eq!(filter.num_bits(), decoded.num_bits());
}

#[test]
fn test_bloom_filter_with_bits_per_key() {
    let filter = BloomFilter::with_bits_per_key(100, 10);

    assert!(filter.num_bits() >= 100 * 10);
    assert!(filter.num_hashes() > 0);
}

#[test]
fn test_bloom_filter_empty() {
    let filter = new_filter(0, 0.01);

    // Empty filter should return false for any key
    assert!(!filter.may_contain(b"key1"));
}

#[test]
fn test_bloom_filter_size() {
    let filter = new_filter(1000, 0.01);

    println!("Filter size: {} bytes", filter.size());
    println!("Num hashes: {}", filter.num_hashes());
    println!("Num bits: {}", filter.num_bits());

    assert!(filter.size() > 0);
    assert!(filter.num_hashes() > 0);
}

#[test]
fn test_bloom_filter_estimated_fp_rate() {
    let num_keys = 1000;
    let filter = new_filter(num_keys, 0.01);

    let estimated = estimated_false_positive_rate(&filter, num_keys);

    println!("Estimated FP rate: {:.6}", estimated);

    // Should be close to target rate
    assert!(estimated < 0.02); // Within 2%
}

#[test]
fn test_fnv_hasher() {
    let mut hasher1 = FnvHasher::new_with_seed(0);
    let mut hasher2 = FnvHasher::new_with_seed(0);

    hasher1.write(b"test");
    hasher2.write(b"test");

    assert_eq!(hasher1.finish(), hasher2.finish());

    // Different seeds should produce different hashes
    let mut hasher3 = FnvHasher::new_with_seed(1);
    hasher3.write(b"test");

    assert_ne!(hasher1.finish(), hasher3.finish());
}

#[test]
fn test_bloom_filter_unit() {
    // Create a bloom filter directly
    let mut filter = new_filter(1000, 0.01);

    // Add keys
    for i in 0..1000 {
        let key = format!("key{}", i);
        filter.add(key.as_bytes());
    }

    // Test membership
    for i in 0..1000 {
        let key = format!("key{}", i);
        assert!(filter.may_contain(key.as_bytes()), "Key {} should be in filter", key);
    }

    // Test false positives
    let mut fps = 0;
    for i in 10000..20000 {
        let key = format!("key{}", i);
        if filter.may_contain(key.as_bytes()) {
            fps += 1;
        }
    }

    let fp_rate = fps as f64 / 10000.0;
    println!("FP rate: {:.4}", fp_rate);

    assert!(fp_rate < 0.02, "FP rate too high: {:.4}", fp_rate);
}

#[test]
fn bloom_filter_tests_test_bloom_filter_encode_decode() {
    let mut filter = new_filter(100, 0.01);

    // Add some keys
    for i in 0..100 {
        filter.add(format!("key{}", i).as_bytes());
    }

    // Encode
    let encoded = filter.encode();
    println!("Encoded size: {} bytes", encoded.len());

    // Decode
    let decoded = BloomFilter::decode(&encoded).unwrap();

    // Verify it works the same
    for i in 0..100 {
        let key = format!("key{}", i);
        assert!(decoded.may_contain(key.as_bytes()));
    }
}

#[test]
fn test_fnv_hash_exact_values() {
    // FNV-1a from the offset basis: the empty input leaves the basis, and
    // one byte is mixed in and multiplied by the prime
    let hasher = FnvHasher::new_with_seed(0);
    assert_eq!(hasher.finish(), 0xcbf29ce484222325);
    let mut hasher = FnvHasher::new_with_seed(0);
    hasher.write(b"a");
    assert_eq!(hasher.finish(), 0xaf63dc4c8601ec8c);
    let mut hasher = FnvHasher::new_with_seed(0);
    hasher.write(b"foobar");
    assert_eq!(hasher.finish(), 0x85944171f73967e8);
    let seeded = FnvHasher::new_with_seed(0xbc9f1d34);
    assert_eq!(seeded.finish(), 0xcbf29ce484222325 ^ 0xbc9f1d34);
}

#[test]
fn test_bloom_probes_follow_the_double_hash() {
    let filter = BloomFilter::with_bits_and_hashes(1000, 5);
    let h1 = filter.hash_with_seed(b"key", 0xbc9f1d34);
    let h2 = filter.hash_with_seed(b"key", 0xd0e89c7b);
    let positions = filter.hash_values(b"key");
    assert_eq!(positions.len(), 5);
    for i in 0..5u32 {
        let expected = h1.wrapping_add(i.wrapping_mul(h2)) as usize % 1000;
        assert_eq!(positions[i as usize], expected);
    }
    // the hash covers the length of the key, as eight bytes, and the key
    let mut hasher = FnvHasher::new_with_seed(0xbc9f1d34);
    hasher.write(&3u64.to_le_bytes());
    hasher.write(b"key");
    assert_eq!(h1, hasher.finish() as u32);
}

#[test]
fn test_bloom_filter_sizes_and_encoding() {
    let filter = BloomFilter::with_bits_per_key(100, 10);
    assert_eq!(filter.num_bits(), 1000);
    assert_eq!(filter.num_hashes(), 7);
    assert_eq!(filter.size(), 125);
    let small = BloomFilter::with_bits_per_key(1, 1);
    assert_eq!(small.num_bits(), 64);
    assert_eq!(small.num_hashes(), 1);
    assert_eq!(BloomFilter::with_bits_per_key(10, 100).num_hashes(), 30);
    assert_eq!(BloomFilter::default_with_keys(10).num_bits(), 100);
    assert_eq!(BloomFilter::bits_per_key_for_rate(10_000), 10);
    assert_eq!(BloomFilter::bits_per_key_for_rate(999_999), 1);
    assert_eq!(BloomFilter::bits_per_key_for_rate(1), 29);

    let mut filter = BloomFilter::with_bits_and_hashes(64, 3);
    filter.add(b"x");
    let encoded = Filter::encode(&filter);
    assert_eq!(encoded.len(), 12 + 8);
    assert_eq!(&encoded[0..4], &3u32.to_le_bytes());
    assert_eq!(&encoded[4..12], &64u64.to_le_bytes());
    assert!(matches!(BloomFilter::decode(&encoded[..11]), Err(aidb::Error::Corruption(_))));
    assert!(matches!(BloomFilter::decode(&encoded[..19]), Err(aidb::Error::Corruption(_))));
}
