use aidb::compress::{compress_block, decompress_block};
use aidb::{CompressionType, Error};

fn sample() -> Vec<u8> {
    let mut raw = vec![0u8; 4000];
    for (i, b) in raw.iter_mut().enumerate() {
        *b = (i / 400) as u8;
    }
    raw
}

#[test]
fn block_without_compression_is_stored_as_it_is() {
    let raw = sample();
    let stored = compress_block(&raw, CompressionType::NoCompression).unwrap();
    assert_eq!(stored, raw);
    assert_eq!(decompress_block(&stored, CompressionType::NoCompression).unwrap(), raw);
}

#[test]
fn snappy_block_is_what_the_encoder_gives() {
    let raw = sample();
    let stored = compress_block(&raw, CompressionType::Snappy).unwrap();
    assert!(stored.len() < raw.len());
    assert_eq!(stored, snap::raw::Encoder::new().compress_vec(&raw).unwrap());
    assert_eq!(snap::raw::Decoder::new().decompress_vec(&stored).unwrap(), raw);
    assert_eq!(decompress_block(&stored, CompressionType::Snappy).unwrap(), raw);
}

#[test]
fn lz4_block_has_its_length_in_front() {
    let raw = sample();
    let stored = compress_block(&raw, CompressionType::Lz4).unwrap();
    assert!(stored.len() < raw.len());
    assert_eq!(&stored[..4], &(raw.len() as u32).to_le_bytes());
    assert_eq!(lz4::block::decompress(&stored, None).unwrap(), raw);
    assert_eq!(decompress_block(&stored, CompressionType::Lz4).unwrap(), raw);
}

#[test]
fn empty_block_goes_through_every_compression() {
    for compression in [CompressionType::NoCompression, CompressionType::Snappy, CompressionType::Lz4] {
        let stored = compress_block(&[], compression).unwrap();
        assert_eq!(decompress_block(&stored, compression).unwrap(), Vec::<u8>::new());
    }
}

#[test]
fn bytes_that_are_no_block_are_refused() {
    let garbage = [0xffu8, 0xff, 0xff, 0xff, 0x7f, 1, 2, 3];
    assert!(matches!(decompress_block(&garbage, CompressionType::Snappy), Err(Error::Internal(_))));
    assert!(matches!(decompress_block(&[9, 0, 0, 0, 0xf0], CompressionType::Lz4), Err(Error::Internal(_))));
    // a block of one compression is none of the other
    let raw = sample();
    let stored = compress_block(&raw, CompressionType::Snappy).unwrap();
    assert_ne!(decompress_block(&stored, CompressionType::Lz4).ok(), Some(raw));
}
