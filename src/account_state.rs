//! Settings and per-account records of the compression program.
use vstd::prelude::*;

verus! {

/// Failures of the compression program.
#[derive(Clone, Copy, Debug, PartialEq, Eq, Structural)]
pub enum CompressionError {
    InvalidAlgorithm,
    CompressionFailed,
    DecompressionFailed,
    InvalidAccountState,
    BufferOverflow,
    InvalidCompressionLevel,
    AlreadyCompressed,
    NotCompressed,
    InvalidChunkSize,
    HashMismatch,
    InsufficientBufferSize,
    InvalidAccountType,
    Unauthorized,
}

/// Codec used for an account.
#[derive(Clone, Copy, Debug, PartialEq, Eq, Structural)]
pub enum CompressionAlgorithm {
    Lz4,
    Snappy,
    Zstd,
}

/// Kind of a compressed account.
#[derive(Clone, Copy, Debug, PartialEq, Eq, Structural)]
pub enum AccountType {
    User,
    Token,
    NFT,
    Program,
}

/// Per-request compression settings.
#[derive(Clone, Copy, Debug, PartialEq, Eq)]
pub struct CompressionConfig {
    pub algorithm: CompressionAlgorithm,
    pub level: u8,
    pub chunk_size: u32,
    pub concurrent_compression: bool,
    pub verify_compression: bool,
}

/// Program-wide compression settings.
#[derive(Clone, Copy, Debug, PartialEq, Eq)]
pub struct GlobalCompressionConfig {
    pub default_algorithm: CompressionAlgorithm,
    pub min_chunk_size: u32,
    pub max_chunk_size: u32,
    pub concurrent_compressions_limit: u32,
    pub verify_all_compressions: bool,
    pub auto_decompress_on_access: bool,
}

/// What is recorded about one compressed account.
#[derive(Clone, Copy, Debug, PartialEq, Eq)]
pub struct CompressedAccountMetadata {
    pub account_type: AccountType,
    pub original_size: u64,
    pub compressed_size: u64,
    pub compression_algorithm: CompressionAlgorithm,
    pub compression_level: u8,
    pub last_accessed: i64,
    pub access_count: u64,
    pub compression_time_ms: u64,
    pub verification_hash: [u8; 32],
}

impl CompressedAccountMetadata {
    /// Whether compression shrank the account: the ratio of original to
    /// compressed size exceeds one (an empty result counts as ratio one).
    pub fn is_compression_effective(&self) -> (r: bool)
        ensures
            r == (self.compressed_size != 0 && self.original_size > self.compressed_size),
    {
        self.compressed_size != 0 && self.original_size > self.compressed_size
    }
}

} // verus!
