use aidb::config::{CompressionType, Options};

#[test]
fn test_default_options() {
    let opts = Options::default();
    assert!(opts.create_if_missing);
    assert!(!opts.error_if_exists);
    assert_eq!(opts.memtable_size, 4 * 1024 * 1024);
}

#[test]
fn test_options_builder() {
    let opts = Options::new().memtable_size(8 * 1024 * 1024).block_size(8 * 1024).use_wal(false);

    assert_eq!(opts.memtable_size, 8 * 1024 * 1024);
    assert_eq!(opts.block_size, 8 * 1024);
    assert!(!opts.use_wal);
}

#[test]
fn test_options_validation() {
    let mut opts = Options::default();
    assert!(opts.validate().is_ok());

    opts.memtable_size = 0;
    assert!(opts.validate().is_err());

    opts.memtable_size = 1024;
    // a false-positive rate of 1.5, in parts per million
    opts.bloom_filter_fp_rate_ppm = 1_500_000;
    assert!(opts.validate().is_err());
}

#[test]
fn test_options_defaults_in_full() {
    let opts = Options::default();
    assert_eq!(opts.level0_compaction_threshold, 4);
    assert_eq!(opts.level_size_multiplier, 10);
    assert_eq!(opts.base_level_size, 10 * 1024 * 1024);
    assert_eq!(opts.max_levels, 7);
    assert_eq!(opts.block_size, 4 * 1024);
    assert_eq!(opts.block_cache_size, 8 * 1024 * 1024);
    assert!(opts.use_bloom_filter);
    assert_eq!(opts.bloom_filter_fp_rate_ppm, 10_000);
    assert_eq!(opts.compression, CompressionType::Snappy);
    assert!(opts.use_wal);
    assert!(opts.sync_wal);
}

#[test]
fn test_options_validation_of_each_field() {
    let mut opts = Options::default();
    opts.block_size = 0;
    assert!(matches!(opts.validate(), Err(aidb::Error::InvalidArgument(_))));
    let mut opts = Options::default();
    opts.max_levels = 0;
    assert!(opts.validate().is_err());
    let mut opts = Options::default();
    opts.bloom_filter_fp_rate_ppm = 0;
    assert!(opts.validate().is_err());
    opts.bloom_filter_fp_rate_ppm = 1_000_000;
    assert!(opts.validate().is_err());
    opts.bloom_filter_fp_rate_ppm = 999_999;
    assert!(opts.validate().is_ok());
}

#[test]
fn test_compression_type_bytes() {
    assert_eq!(CompressionType::from_u8(0), Some(CompressionType::NoCompression));
    assert_eq!(CompressionType::from_u8(1), Some(CompressionType::Snappy));
    assert_eq!(CompressionType::from_u8(2), Some(CompressionType::Lz4));
    assert_eq!(CompressionType::from_u8(3), None);
    assert_eq!(CompressionType::Lz4.as_u8(), 2);
    assert_eq!(CompressionType::default(), CompressionType::Snappy);
}
