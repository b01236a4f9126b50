use synap_server::compressor::{CompressionAlgorithm, CompressionConfig, Compressor};

#[test]
fn test_lz4_compression() {
    let config = CompressionConfig { enabled: true, min_payload_size: 10, ..Default::default() };
    let compressor = Compressor::new(config);

    let data = b"Hello, World! This is a test string that should compress well.".repeat(10);
    let compressed = compressor.compress(&data, Some(CompressionAlgorithm::Lz4)).unwrap();
    assert!(compressed.len() < data.len());

    let decompressed = compressor.decompress(&compressed, CompressionAlgorithm::Lz4).unwrap();
    assert_eq!(data.to_vec(), decompressed);
}

#[test]
fn test_zstd_compression() {
    let config = CompressionConfig {
        enabled: true,
        min_payload_size: 10,
        default_algorithm: CompressionAlgorithm::Zstd,
        ..Default::default()
    };
    let compressor = Compressor::new(config);

    let data = b"Hello, World! This is a test string that should compress well.".repeat(10);
    let compressed = compressor.compress(&data, Some(CompressionAlgorithm::Zstd)).unwrap();
    assert!(compressed.len() < data.len());

    let decompressed = compressor.decompress(&compressed, CompressionAlgorithm::Zstd).unwrap();
    assert_eq!(data.to_vec(), decompressed);
}

#[test]
fn test_skip_small_payloads() {
    let config = CompressionConfig { enabled: true, min_payload_size: 1024, ..Default::default() };
    let compressor = Compressor::new(config);

    let small_data = b"Small";
    let result = compressor.compress(small_data, None).unwrap();
    assert_eq!(result, small_data);
}

#[test]
fn test_compression_disabled() {
    let config = CompressionConfig { enabled: false, ..Default::default() };
    let compressor = Compressor::new(config);

    let data = b"Hello, World!".repeat(100);
    let result = compressor.compress(&data, None).unwrap();
    assert_eq!(result, data);
}

#[test]
fn test_should_compress() {
    let config = CompressionConfig { enabled: true, min_payload_size: 1024, ..Default::default() };
    let compressor = Compressor::new(config);

    let large_data = vec![0u8; 2048];
    assert!(compressor.should_compress(&large_data));

    let small_data = vec![0u8; 512];
    assert!(!compressor.should_compress(&small_data));
}

#[test]
fn default_algorithm_is_used_when_none_is_asked_for() {
    let config = CompressionConfig { enabled: true, min_payload_size: 1, ..Default::default() };
    let compressor = Compressor::new(config);
    let data = b"abcabcabcabcabcabcabcabcabcabcabcabc".to_vec();
    let compressed = compressor.compress(&data, None).unwrap();
    assert_ne!(compressed, data);
    assert_eq!(compressor.decompress(&compressed, CompressionAlgorithm::Lz4).unwrap(), data);
}

#[test]
fn no_compression_passes_bytes_through() {
    let config = CompressionConfig { enabled: true, min_payload_size: 1, ..Default::default() };
    let compressor = Compressor::new(config);
    let data = b"payload".to_vec();
    assert_eq!(compressor.compress(&data, Some(CompressionAlgorithm::NoCompression)).unwrap(), data);
    assert_eq!(compressor.decompress(&data, CompressionAlgorithm::NoCompression).unwrap(), data);
}

#[test]
fn garbage_does_not_decompress() {
    let compressor = Compressor::new(CompressionConfig::default());
    assert!(compressor.decompress(b"definitely not a frame", CompressionAlgorithm::Zstd).is_err());
    assert!(compressor.decompress(b"definitely not a frame", CompressionAlgorithm::Lz4).is_err());
}
