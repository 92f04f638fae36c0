//! A hash map that keeps its most recently used values in memory and moves the
//! least recently used ones into a compressed side store on request.
mod bincode_lz4;
mod compressible_map;
mod compression;
mod local_cache;
mod lru_cache;
mod snappy;

pub use bincode_lz4::{
    lemma_lz4_round_trip, lz4_content, lz4_frame, BincodeLz4, BincodeLz4Compressed,
};
pub use compressible_map::{promoted, CompressibleMap, MaybeCompressed};
pub use compression::{BytesCompression, Compressed, Compression};
pub use local_cache::{LocalAccess, LocalCache};
pub use lru_cache::without;
pub use snappy::{
    lemma_snappy_round_trip, snappy_content, snappy_frame, BincodeSnappy, BincodeSnappyCompressed,
};
