//! Compressed accounts and a queue of data waiting to be compressed.
//!
//! The codecs themselves (LZ4 frames, raw Snappy, Zstandard) are outside
//! crates; what they produce is named, not restated.
use crate::error::CoreError;
use crate::pubkey::Pubkey;
use std::io::Write;
use vstd::prelude::*;

verus! {

/// Largest input accepted for compression (10 MiB).
pub const MAX_UNCOMPRESSED_SIZE: usize = 10485760;

/// Most items the compression queue holds.
pub const MAX_QUEUE_SIZE: usize = 1000;

/// Bytes of the header in front of compressed data.
pub const COMPRESSION_HEADER_SIZE: usize = 8;

/// Codec applied to an account's data.
#[derive(Clone, Copy, Debug, PartialEq, Eq, Structural)]
pub enum CompressionType {
    Uncompressed,
    Lz4,
    Snappy,
    Zstd,
}

/// Codec failures.
#[derive(Clone, Copy, Debug, PartialEq, Eq, Structural)]
pub enum CompressionError {
    CompressionFailed,
    DecompressionFailed,
    InvalidCompressionType,
    /// More than `MAX_UNCOMPRESSED_SIZE` bytes were offered.
    InputTooLarge,
}

impl CompressionError {
    /// Code carried by a custom program error: the position of the variant.
    pub fn code(&self) -> (r: u32)
        ensures
            r == match *self {
                CompressionError::CompressionFailed => 0u32,
                CompressionError::DecompressionFailed => 1,
                CompressionError::InvalidCompressionType => 2,
                CompressionError::InputTooLarge => 3,
            },
    {
        match self {
            CompressionError::CompressionFailed => 0,
            CompressionError::DecompressionFailed => 1,
            CompressionError::InvalidCompressionType => 2,
            CompressionError::InputTooLarge => 3,
        }
    }
}

/// LZ4 frame holding `data`.
pub uninterp spec fn lz4_frame_of(data: Seq<u8>) -> Seq<u8>;

/// Bytes held by an LZ4 frame.
pub uninterp spec fn lz4_frame_content(frame: Seq<u8>) -> Seq<u8>;

/// Raw Snappy block holding `data`.
pub uninterp spec fn snappy_of(data: Seq<u8>) -> Seq<u8>;

/// Bytes held by a raw Snappy block.
pub uninterp spec fn snappy_content(block: Seq<u8>) -> Seq<u8>;

/// Zstandard frame holding `data`, at the default level.
pub uninterp spec fn zstd_of(data: Seq<u8>) -> Seq<u8>;

/// Bytes held by a Zstandard frame.
pub uninterp spec fn zstd_content(frame: Seq<u8>) -> Seq<u8>;

/// Relies on lz4_flex::frame::FrameEncoder: writes `data` into one LZ4 frame
/// with the default frame settings.
#[verifier::external_body]
pub fn compress_lz4(data: &[u8]) -> (r: Result<Vec<u8>, CompressionError>)
    ensures
        r matches Ok(v) ==> v@ == lz4_frame_of(data@),
        r matches Err(e) ==> e == CompressionError::CompressionFailed,
{
    let mut encoder = lz4_flex::frame::FrameEncoder::new(Vec::new());
    encoder.write_all(data).map_err(|_| CompressionError::CompressionFailed)?;
    encoder.finish().map_err(|_| CompressionError::CompressionFailed)
}

/// Relies on lz4_flex::frame::FrameDecoder, read to the end: the bytes the
/// frame holds. The size hint is not needed by the decoder.
#[verifier::external_body]
pub fn decompress_lz4(compressed: &[u8], _original_size: usize) -> (r: Result<Vec<u8>, CompressionError>)
    ensures
        r matches Ok(v) ==> v@ == lz4_frame_content(compressed@),
        r matches Err(e) ==> e == CompressionError::DecompressionFailed,
{
    let mut decoder = lz4_flex::frame::FrameDecoder::new(compressed);
    let mut decompressed = Vec::new();
    std::io::copy(&mut decoder, &mut decompressed).map_err(|_| CompressionError::DecompressionFailed)?;
    Ok(decompressed)
}

/// Relies on snap::raw::Encoder::compress_vec: one raw Snappy block.
#[verifier::external_body]
pub fn compress_snappy(data: &[u8]) -> (r: Result<Vec<u8>, CompressionError>)
    ensures
        r matches Ok(v) ==> v@ == snappy_of(data@),
        r matches Err(e) ==> e == CompressionError::CompressionFailed,
{
    snap::raw::Encoder::new().compress_vec(data).map_err(|_| CompressionError::CompressionFailed)
}

/// Relies on snap::raw::Decoder::decompress_vec: the bytes the block holds.
#[verifier::external_body]
pub fn decompress_snappy(compressed: &[u8], _original_size: usize) -> (r: Result<
    Vec<u8>,
    CompressionError,
>)
    ensures
        r matches Ok(v) ==> v@ == snappy_content(compressed@),
        r matches Err(e) ==> e == CompressionError::DecompressionFailed,
{
    snap::raw::Decoder::new().decompress_vec(compressed).map_err(
        |_| CompressionError::DecompressionFailed,
    )
}

/// Relies on zstd::encode_all at level 0 (the library's default level).
#[verifier::external_body]
pub fn compress_zstd(data: &[u8]) -> (r: Result<Vec<u8>, CompressionError>)
    ensures
        r matches Ok(v) ==> v@ == zstd_of(data@),
        r matches Err(e) ==> e == CompressionError::CompressionFailed,
{
    zstd::encode_all(data, 0).map_err(|_| CompressionError::CompressionFailed)
}

/// Relies on zstd::decode_all: the bytes the frames hold.
#[verifier::external_body]
pub fn decompress_zstd(compressed: &[u8], _original_size: usize) -> (r: Result<Vec<u8>, CompressionError>)
    ensures
        r matches Ok(v) ==> v@ == zstd_content(compressed@),
        r matches Err(e) ==> e == CompressionError::DecompressionFailed,
{
    zstd::decode_all(compressed).map_err(|_| CompressionError::DecompressionFailed)
}

/// Stored form of `data` under a codec.
pub open spec fn compressed_form(t: CompressionType, data: Seq<u8>) -> Seq<u8> {
    match t {
        CompressionType::Uncompressed => data,
        CompressionType::Lz4 => lz4_frame_of(data),
        CompressionType::Snappy => snappy_of(data),
        CompressionType::Zstd => zstd_of(data),
    }
}

/// Bytes recovered from a stored form under a codec.
pub open spec fn decompressed_form(t: CompressionType, stored: Seq<u8>) -> Seq<u8> {
    match t {
        CompressionType::Uncompressed => stored,
        CompressionType::Lz4 => lz4_frame_content(stored),
        CompressionType::Snappy => snappy_content(stored),
        CompressionType::Zstd => zstd_content(stored),
    }
}

/// A copy of `data`.
fn copy_bytes(data: &[u8]) -> (r: Vec<u8>)
    ensures
        r@ == data@,
{
    let mut out: Vec<u8> = Vec::new();
    let mut i: usize = 0;
    while i < data.len()
        invariant
            i <= data@.len(),
            out@ == data@.take(i as int),
        decreases data@.len() - i,
    {
        out.push(data[i]);
        assert(out@ =~= data@.take(i + 1));
        i = i + 1;
    }
    assert(data@.take(i as int) =~= data@);
    out
}

/// Compresses `data` with the given codec; `None` keeps the bytes as they
/// are and cannot fail.
pub fn compress_with(t: CompressionType, data: &[u8]) -> (r: Result<Vec<u8>, CompressionError>)
    ensures
        t == CompressionType::Uncompressed ==> r is Ok,
        r matches Ok(v) ==> v@ == compressed_form(t, data@),
        r matches Err(e) ==> e == CompressionError::CompressionFailed,
{
    match t {
        CompressionType::Uncompressed => Ok(copy_bytes(data)),
        CompressionType::Lz4 => compress_lz4(data),
        CompressionType::Snappy => compress_snappy(data),
        CompressionType::Zstd => compress_zstd(data),
    }
}

/// Record of a compression.
#[derive(Clone, Copy, Debug, PartialEq, Eq)]
pub struct AccountMetadata {
    pub last_compressed: i64,
    pub compression_count: u32,
    pub original_space: u32,
    pub saved_space: u32,
}

/// Data stored in compressed form, with its original size.
#[derive(Debug)]
pub struct CompressedAccount {
    pub version: u8,
    pub original_size: u32,
    pub compression_type: CompressionType,
    pub data: Vec<u8>,
    pub metadata: AccountMetadata,
}

/// Bytes saved by storing `stored` bytes in place of `original` bytes.
pub open spec fn saved_space(original: nat, stored: nat) -> u32 {
    if stored > original {
        0
    } else {
        (original - stored) as u32
    }
}

impl CompressedAccount {
    /// The account is the record of `original_len` bytes stored as
    /// `stored` under codec `t`.
    pub open spec fn describes(&self, original_len: nat, t: CompressionType, stored: Seq<u8>) -> bool {
        &&& self.version == 1
        &&& self.original_size == original_len as u32
        &&& self.compression_type == t
        &&& self.data@ == stored
        &&& self.metadata == (AccountMetadata {
            last_compressed: 0,
            compression_count: 1,
            original_space: original_len as u32,
            saved_space: saved_space(original_len, stored.len()),
        })
    }

    /// The record of `original_len` bytes that codec `t` stored as
    /// `compressed`.
    pub fn from_parts(original_len: usize, t: CompressionType, compressed: Vec<u8>) -> (r:
        CompressedAccount)
        ensures
            r.describes(original_len as nat, t, compressed@),
    {
        let saved: u32 = if compressed.len() > original_len {
            0
        } else {
            (original_len - compressed.len()) as u32
        };
        let original_size = original_len as u32;
        CompressedAccount {
            version: 1,
            original_size,
            compression_type: t,
            data: compressed,
            metadata: AccountMetadata {
                last_compressed: 0,
                compression_count: 1,
                original_space: original_size,
                saved_space: saved,
            },
        }
    }

    /// Compresses `data` into a new account. Refused with `InputTooLarge`
    /// above `MAX_UNCOMPRESSED_SIZE` bytes; otherwise succeeds unless the
    /// codec fails, which `None` never does.
    pub fn new(data: &[u8], compression_type: CompressionType) -> (r: Result<
        CompressedAccount,
        CompressionError,
    >)
        ensures
            data@.len() > MAX_UNCOMPRESSED_SIZE ==> r == Err::<CompressedAccount, CompressionError>(
                CompressionError::InputTooLarge,
            ),
            data@.len() <= MAX_UNCOMPRESSED_SIZE && compression_type == CompressionType::Uncompressed ==> r is Ok,
            r matches Ok(acc) ==> acc.describes(
                data@.len(),
                compression_type,
                compressed_form(compression_type, data@),
            ),
            r matches Err(e) ==> e == CompressionError::InputTooLarge || (e
                == CompressionError::CompressionFailed && compression_type != CompressionType::Uncompressed),
    {
        if data.len() > MAX_UNCOMPRESSED_SIZE {
            return Err(CompressionError::InputTooLarge);
        }
        let compressed = match compress_with(compression_type, data) {
            Ok(c) => c,
            Err(e) => {
                return Err(e);
            },
        };
        Ok(CompressedAccount::from_parts(data.len(), compression_type, compressed))
    }

    /// The original bytes, recovered with the account's codec.
    pub fn decompress(&self) -> (r: Result<Vec<u8>, CompressionError>)
        ensures
            self.compression_type == CompressionType::Uncompressed ==> r is Ok,
            r matches Ok(v) ==> v@ == decompressed_form(self.compression_type, self.data@),
            r matches Err(e) ==> e == CompressionError::DecompressionFailed,
    {
        let size = self.original_size as usize;
        match self.compression_type {
            CompressionType::Uncompressed => Ok(copy_bytes(self.data.as_slice())),
            CompressionType::Lz4 => decompress_lz4(self.data.as_slice(), size),
            CompressionType::Snappy => decompress_snappy(self.data.as_slice(), size),
            CompressionType::Zstd => decompress_zstd(self.data.as_slice(), size),
        }
    }
}

/// Lifecycle data of a compression queue.
#[derive(Clone, Copy, Debug)]
pub struct QueueMetadata {
    pub creation_time: i64,
    pub last_processed: i64,
    pub authority: Pubkey,
    pub is_locked: bool,
    pub total_items_processed: u64,
}

/// Data waiting to be compressed.
#[derive(Debug)]
pub struct QueueItem {
    pub data: Vec<u8>,
    pub compression_type: CompressionType,
    pub priority: u8,
    pub timestamp: i64,
}

/// Data waiting to be compressed: priority items at the head, others at the
/// tail.
pub struct CompressionQueue {
    pub metadata: QueueMetadata,
    pending_items: Vec<QueueItem>,
    processed_count: u64,
}

impl CompressionQueue {
    /// Items waiting, head first.
    pub closed spec fn spec_items(&self) -> Seq<QueueItem> {
        self.pending_items@
    }

    pub closed spec fn spec_metadata(&self) -> QueueMetadata {
        self.metadata
    }

    pub closed spec fn spec_processed(&self) -> u64 {
        self.processed_count
    }

    pub fn new(authority: Pubkey) -> (r: CompressionQueue)
        ensures
            r.spec_items().len() == 0,
            r.spec_processed() == 0,
            r.spec_metadata() == (QueueMetadata {
                creation_time: 0,
                last_processed: 0,
                authority,
                is_locked: false,
                total_items_processed: 0,
            }),
    {
        CompressionQueue {
            metadata: QueueMetadata {
                creation_time: 0,
                last_processed: 0,
                authority,
                is_locked: false,
                total_items_processed: 0,
            },
            pending_items: Vec::new(),
            processed_count: 0,
        }
    }

    /// Queues data: at the tail with priority 0, at the head otherwise.
    /// Refused, changing nothing, with `FrozenOrFinalized` on a locked queue
    /// and `CapacityExceeded` on a full one.
    pub fn enqueue(&mut self, data: Vec<u8>, compression_type: CompressionType, priority: u8) -> (r:
        Result<(), CoreError>)
        ensures
            final(self).spec_metadata() == old(self).spec_metadata(),
            final(self).spec_processed() == old(self).spec_processed(),
            old(self).spec_metadata().is_locked ==> r == Err::<(), CoreError>(CoreError::FrozenOrFinalized)
                && final(self).spec_items() == old(self).spec_items(),
            !old(self).spec_metadata().is_locked && old(self).spec_items().len() >= MAX_QUEUE_SIZE ==> r
                == Err::<(), CoreError>(CoreError::CapacityExceeded) && final(self).spec_items()
                == old(self).spec_items(),
            !old(self).spec_metadata().is_locked && old(self).spec_items().len() < MAX_QUEUE_SIZE ==> {
                let item = QueueItem { data, compression_type, priority, timestamp: 0 };
                &&& r is Ok
                &&& priority == 0 ==> final(self).spec_items() == old(self).spec_items().push(item)
                &&& priority != 0 ==> final(self).spec_items() == seq![item] + old(self).spec_items()
            },
    {
        if self.metadata.is_locked {
            return Err(CoreError::FrozenOrFinalized);
        }
        if self.pending_items.len() >= MAX_QUEUE_SIZE {
            return Err(CoreError::CapacityExceeded);
        }
        let item = QueueItem { data, compression_type, priority, timestamp: 0 };
        if priority == 0 {
            self.pending_items.push(item);
        } else {
            self.pending_items.insert(0, item);
            assert(self.pending_items@ =~= seq![item] + old(self).pending_items@);
        }
        Ok(())
    }

    /// Takes the head item and compresses it into an account. `Ok(None)`
    /// when nothing is queued. The item leaves the queue even when its codec
    /// fails; the counters only count successes (and stop at their maximum).
    pub fn process_next(&mut self) -> (r: Result<Option<CompressedAccount>, CompressionError>)
        ensures
            final(self).spec_metadata().is_locked == old(self).spec_metadata().is_locked,
            final(self).spec_metadata().authority == old(self).spec_metadata().authority,
            old(self).spec_items().len() == 0 ==> (r matches Ok(None)) && final(self).spec_items()
                == old(self).spec_items(),
            old(self).spec_items().len() > 0 ==> {
                let item = old(self).spec_items()[0];
                &&& final(self).spec_items() == old(self).spec_items().drop_first()
                &&& item.compression_type == CompressionType::Uncompressed ==> r is Ok
                &&& r matches Ok(acc) ==> (acc matches Some(a) && a.describes(
                    item.data@.len(),
                    item.compression_type,
                    compressed_form(item.compression_type, item.data@),
                ) && final(self).spec_processed() == (if old(self).spec_processed() < u64::MAX {
                    (old(self).spec_processed() + 1) as u64
                } else {
                    old(self).spec_processed()
                }))
                &&& r matches Err(e) ==> e == CompressionError::CompressionFailed && final(self).spec_processed() == old(self).spec_processed()
            },
    {
        if self.pending_items.len() == 0 {
            return Ok(None);
        }
        let item = self.pending_items.remove(0);
        assert(self.pending_items@ =~= old(self).pending_items@.drop_first());
        let compressed = match compress_with(item.compression_type, item.data.as_slice()) {
            Ok(c) => c,
            Err(e) => {
                return Err(e);
            },
        };
        let account = CompressedAccount::from_parts(item.data.len(), item.compression_type, compressed);
        self.processed_count = self.processed_count.saturating_add(1);
        self.metadata.total_items_processed = self.metadata.total_items_processed.saturating_add(1);
        Ok(Some(account))
    }

    /// Number of items waiting.
    pub fn len(&self) -> (r: usize)
        ensures
            r == self.spec_items().len(),
    {
        self.pending_items.len()
    }

    /// Number of items compressed so far.
    pub fn processed_count(&self) -> (r: u64)
        ensures
            r == self.spec_processed(),
    {
        self.processed_count
    }
}

} // verus!
