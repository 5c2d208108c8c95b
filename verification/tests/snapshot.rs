use foldback::error::Error;
use foldback::snapshot::{compress, decompress};

fn round_trip(data: &[u8]) {
    let compressed = compress(data, 3).unwrap();
    let decompressed = decompress(&compressed).unwrap();
    assert_eq!(decompressed, data);
}

#[test]
fn round_trip_empty() {
    round_trip(&[]);
}

#[test]
fn round_trip_tiny() {
    round_trip(b"hi");
}

#[test]
fn round_trip_large() {
    let data: Vec<u8> = (0..5_000_000u32).map(|i| (i % 256) as u8).collect();
    round_trip(&data);
}

#[test]
fn corrupted_data_errors_not_panics() {
    let garbage = vec![0xFFu8; 64];
    let result = decompress(&garbage);
    assert!(result.is_err());
}

#[test]
fn truncated_valid_stream_errors_not_panics() {
    let compressed = compress(b"some real data to compress here", 3).unwrap();
    let truncated = &compressed[..compressed.len() / 2];
    let result = decompress(truncated);
    assert!(result.is_err());
}

#[test]
fn compression_shrinks_repetitive_data_and_rejects_are_corrupt_snapshots() {
    let data = vec![7u8; 10_000];
    let compressed = compress(&data, 0).unwrap();
    assert!(compressed.len() < data.len());
    assert_ne!(compressed, data);
    assert!(matches!(decompress(b"not zstd"), Err(Error::CorruptSnapshot)));
}

#[test]
fn compress_always_succeeds_even_at_out_of_range_levels() {
    for level in [-200, 0, 3, 22, 1000] {
        let c = compress(b"state", level).unwrap();
        assert_eq!(decompress(&c).unwrap(), b"state".to_vec());
    }
}
