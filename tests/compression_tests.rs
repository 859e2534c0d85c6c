use wave_core::compression::{
    compress_lz4, compress_snappy, compress_zstd, decompress_lz4, decompress_snappy, decompress_zstd,
    CompressedAccount, CompressionError, CompressionQueue, CompressionType, MAX_QUEUE_SIZE,
    MAX_UNCOMPRESSED_SIZE,
};
use wave_core::error::CoreError;
use wave_core::pubkey::Pubkey;

#[test]
fn test_lz4_compression() {
    let data = b"Hello, LZ4!";
    let compressed = compress_lz4(data).unwrap();
    assert_ne!(compressed, data.to_vec());
    let decompressed = decompress_lz4(&compressed, data.len()).unwrap();
    assert_eq!(decompressed, data);
}

#[test]
fn test_snappy_compression() {
    let data = b"Hello, Snappy!";
    let compressed = compress_snappy(data).unwrap();
    assert_ne!(compressed, data.to_vec());
    let decompressed = decompress_snappy(&compressed, data.len()).unwrap();
    assert_eq!(decompressed, data);
}

#[test]
fn test_zstd_compression() {
    let data = b"Hello, Zstd!";
    let compressed = compress_zstd(data).unwrap();
    assert_ne!(compressed, data.to_vec());
    let decompressed = decompress_zstd(&compressed, data.len()).unwrap();
    assert_eq!(decompressed, data);
}

#[test]
fn lib_test_compression_queue() {
    let mut queue = CompressionQueue::new(Pubkey::new_from_array([1u8; 32]));
    let data1 = vec![1u8; 1000];
    let data2 = vec![2u8; 1000];

    assert!(queue.enqueue(data1.clone(), CompressionType::Lz4, 0).is_ok());
    assert!(queue.enqueue(data2.clone(), CompressionType::Snappy, 1).is_ok());

    let compressed1 = queue.process_next().unwrap().unwrap();
    let compressed2 = queue.process_next().unwrap().unwrap();

    assert!(compressed1.data.len() < data1.len());
    assert!(compressed2.data.len() < data2.len());

    let decompressed1 = compressed1.decompress().unwrap();
    let decompressed2 = compressed2.decompress().unwrap();
    // the priority item comes out first
    assert_eq!(decompressed1, data2);
    assert_eq!(decompressed2, data1);
    assert_eq!(queue.processed_count(), 2);
    assert!(queue.process_next().unwrap().is_none());
}

#[test]
fn test_compression_types() {
    let data = vec![1u8; 10000];
    let compressed_lz4 = CompressedAccount::new(&data, CompressionType::Lz4).unwrap();
    let compressed_snappy = CompressedAccount::new(&data, CompressionType::Snappy).unwrap();
    let compressed_zstd = CompressedAccount::new(&data, CompressionType::Zstd).unwrap();

    assert!(compressed_lz4.data.len() < data.len());
    assert!(compressed_snappy.data.len() < data.len());
    assert!(compressed_zstd.data.len() < data.len());

    assert_eq!(compressed_lz4.decompress().unwrap(), data);
    assert_eq!(compressed_snappy.decompress().unwrap(), data);
    assert_eq!(compressed_zstd.decompress().unwrap(), data);

    assert_eq!(compressed_lz4.original_size, 10000);
    assert_eq!(
        compressed_lz4.metadata.saved_space as usize,
        10000 - compressed_lz4.data.len()
    );
    assert_eq!(compressed_lz4.data, compress_lz4(&data).unwrap());
}

#[test]
fn test_queue_priority() {
    let mut queue = CompressionQueue::new(Pubkey::new_from_array([1u8; 32]));
    let low_priority_data = vec![1u8; 100];
    let high_priority_data = vec![2u8; 100];

    queue.enqueue(low_priority_data.clone(), CompressionType::Lz4, 0).unwrap();
    queue.enqueue(high_priority_data.clone(), CompressionType::Lz4, 1).unwrap();

    let first = queue.process_next().unwrap().unwrap();
    let second = queue.process_next().unwrap().unwrap();

    assert_eq!(first.decompress().unwrap(), high_priority_data);
    assert_eq!(second.decompress().unwrap(), low_priority_data);
}

#[test]
fn test_queue_limits() {
    let mut queue = CompressionQueue::new(Pubkey::new_from_array([1u8; 32]));
    for _ in 0..MAX_QUEUE_SIZE {
        assert!(queue.enqueue(vec![0u8; 10], CompressionType::Uncompressed, 0).is_ok());
    }
    assert_eq!(queue.len(), MAX_QUEUE_SIZE);
    let result = queue.enqueue(vec![0u8; 10], CompressionType::Uncompressed, 0);
    assert_eq!(result, Err(CoreError::CapacityExceeded));
    assert_eq!(queue.len(), MAX_QUEUE_SIZE);
}

#[test]
fn locked_queue_refuses_items() {
    let mut queue = CompressionQueue::new(Pubkey::new_from_array([1u8; 32]));
    queue.metadata.is_locked = true;
    assert_eq!(queue.enqueue(vec![1u8], CompressionType::Zstd, 0), Err(CoreError::FrozenOrFinalized));
    assert_eq!(queue.len(), 0);
}

#[test]
fn uncompressed_account_keeps_bytes() {
    let data = vec![3u8, 1, 4, 1, 5];
    let account = CompressedAccount::new(&data, CompressionType::Uncompressed).unwrap();
    assert_eq!(account.data, data);
    assert_eq!(account.metadata.saved_space, 0);
    assert_eq!(account.metadata.original_space, 5);
    assert_eq!(account.decompress().unwrap(), data);
    let grown = CompressedAccount::from_parts(2, CompressionType::Lz4, vec![0u8; 9]);
    assert_eq!(grown.metadata.saved_space, 0);
}

#[test]
fn oversized_input_is_refused() {
    let data = vec![0u8; MAX_UNCOMPRESSED_SIZE + 1];
    assert!(matches!(
        CompressedAccount::new(&data, CompressionType::Uncompressed),
        Err(CompressionError::InputTooLarge)
    ));
}

#[test]
fn corrupt_frames_fail_to_decompress() {
    assert_eq!(decompress_zstd(&[1, 2, 3, 4], 4), Err(CompressionError::DecompressionFailed));
    assert_eq!(decompress_snappy(&[0xff, 0xff, 0xff, 0xff, 0xff, 0xff], 4), Err(CompressionError::DecompressionFailed));
    let account = CompressedAccount::from_parts(4, CompressionType::Lz4, vec![9u8; 8]);
    assert_eq!(account.decompress(), Err(CompressionError::DecompressionFailed));
}

#[test]
fn compression_errors_test_error_conversion() {
    assert_eq!(CompressionError::CompressionFailed.code(), 0);
    assert_eq!(CompressionError::InvalidCompressionType.code(), 2);
}
