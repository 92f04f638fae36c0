use compressible_map::{BincodeLz4, BincodeSnappy, BytesCompression, CompressibleMap, Compression};

#[test]
fn bincode_lz4_compress_and_decompress_serializable_type() {
    let foo: Vec<i32> = (0..100).collect();
    let bytes = bincode::serialize(&foo).unwrap();

    let compressed_foo = BincodeLz4 { level: 10 }.compress(&bytes);

    let decompressed_bytes = compressed_foo.decompress();
    let decompressed_foo: Vec<i32> = bincode::deserialize(&decompressed_bytes).unwrap();

    assert_eq!(foo, decompressed_foo);
}

#[test]
fn snappy_compress_and_decompress_serializable_type() {
    let foo: Vec<i32> = (0..100).collect();
    let bytes = bincode::serialize(&foo).unwrap();

    let compressed_foo = BincodeSnappy.compress(&bytes);

    let decompressed_bytes = compressed_foo.decompress();
    let decompressed_foo: Vec<i32> = bincode::deserialize(&decompressed_bytes).unwrap();

    assert_eq!(foo, decompressed_foo);
}

#[test]
fn lz4_output_is_a_frame_not_the_input() {
    let bytes = vec![7u8; 4096];
    let compressed = BincodeLz4 { level: 4 }.compress_bytes(&bytes);
    assert_ne!(compressed, bytes);
    assert!(compressed.len() < bytes.len());
    // LZ4 frame magic number, little endian.
    assert_eq!(&compressed[..4], &[0x04, 0x22, 0x4d, 0x18]);
    assert_eq!(BincodeLz4::decompress_bytes(&compressed), bytes);
}

#[test]
fn snappy_output_is_a_frame_stream_not_the_input() {
    let bytes = vec![3u8; 4096];
    let compressed = BincodeSnappy.compress_bytes(&bytes);
    assert_ne!(compressed, bytes);
    assert!(compressed.len() < bytes.len());
    // Stream identifier chunk.
    assert_eq!(compressed[0], 0xff);
    assert_eq!(BincodeSnappy::decompress_bytes(&compressed), bytes);
}

#[test]
fn round_trip_of_empty_input() {
    let empty: Vec<u8> = Vec::new();
    let lz4 = BincodeLz4 { level: 1 }.compress(&empty);
    assert!(!lz4.compressed_data.compressed_bytes.is_empty());
    assert_eq!(lz4.decompress(), empty);
    let snappy = BincodeSnappy.compress(&empty);
    assert_eq!(snappy.decompress(), empty);
}

#[test]
fn lz4_map_round_trips_serialized_values() {
    let mut map = CompressibleMap::new_bincode_lz4(10);
    for i in 0..100u64 {
        map.insert(i, bincode::serialize(&vec![i; 128]).unwrap());
    }
    for _ in 0..50 {
        map.compress_lru();
    }
    assert_eq!(map.len_compressed(), 50);
    assert_eq!(map.compression_params().level, 10);
    for i in 20..80u64 {
        let bytes = map.get(i).unwrap().clone();
        let value: Vec<u64> = bincode::deserialize(&bytes).unwrap();
        assert_eq!(value, vec![i; 128]);
    }
    assert_eq!(map.len_compressed(), 20);
    assert_eq!(map.len_cached(), 80);
}
