//! Compressing one block: raw DEFLATE under the flush mode its position
//! calls for, plus the CRC-32 of its original bytes.
use vstd::prelude::*;

use crate::checksum::{crc32, crc32_of};
use crate::error::CompressError;

verus! {

/// Compression level handed to the codec (zlib's default trade-off).
pub const COMPRESSION_LEVEL: i32 = 6;

/// Base-two logarithm of the DEFLATE window size.
pub const WINDOW_BITS: u8 = 15;

/// What the codec reported after one compression call.
#[derive(Debug, Clone, Copy, PartialEq, Eq, Structural)]
pub enum DeflateStatus {
    /// Progress was made; more input may follow (the outcome of a sync flush).
    Progress,
    /// No progress was possible (input or output space missing).
    NoProgress,
    /// The stream was terminated with its final block.
    StreamEnd,
    /// The codec refused the call.
    Failed,
}

/// One compressed block: its index, its raw DEFLATE bytes, and the CRC-32
/// and length of the original bytes it was made from.
pub struct CompressedBlock {
    pub index: usize,
    pub payload: Vec<u8>,
    pub checksum: u32,
    pub original_len: u64,
}

/// Output bytes, status and number of input bytes consumed of one raw
/// DEFLATE call (no zlib or gzip framing) on `data`, finishing the stream or
/// sync-flushing it, with `capacity` bytes of output space.
pub uninterp spec fn deflated(
    data: Seq<u8>,
    finish: bool,
    capacity: nat,
    level: int,
    window_bits: nat,
) -> (Seq<u8>, DeflateStatus, nat);

/// The codec's worst-case output size for `n` input bytes.
pub open spec fn deflate_bound_of(n: nat) -> nat {
    n + (if n == 0 { 1nat } else { 0nat }) + (if n < 9 { 1nat } else { 0nat }) + (n + 7) / 8 + 9
}

/// Largest block, in bytes, that this library hands to the codec. Below it
/// the codec's worst-case output size is computed without wrapping on every
/// target (the size fits in 32 bits), and one codec call can read the whole
/// block (a call reads at most `u32::MAX` bytes).
pub const MAX_BLOCK_LEN: usize = 0xE000_0000;

/// Relies on `zlib_rs::compress_bound`: the input length, plus one byte for
/// an empty input, one for inputs under 9 bytes, one bit per byte rounded up
/// (this term passes through a C `long`, 32 bits wide on some targets), 3
/// bytes of block overhead and 6 of framing, computed with wrapping adds.
/// Up to `MAX_BLOCK_LEN` bytes no step wraps on any target.
#[verifier::external_body]
fn deflate_bound(n: usize) -> (r: usize)
    ensures
        n <= MAX_BLOCK_LEN ==> r == deflate_bound_of(n as nat),
{
    zlib_rs::compress_bound(n)
}

/// Relies on `zlib_rs::Deflate::new` (headerless) and `Deflate::compress`:
/// a single compression call on a fresh stream into a buffer of `capacity`
/// bytes, under a finish or a sync flush; the output is the first
/// `total_out` bytes of the buffer. As `zlib_rs::compress_bound` documents,
/// with that much output space compression never fails for lack of it: a
/// finishing call on input it reads whole ends the stream.
#[verifier::external_body]
fn deflate_raw(data: &[u8], capacity: usize, finish: bool, level: i32, window_bits: u8) -> (r: (
    Vec<u8>,
    DeflateStatus,
    u64,
))
    requires
        -1 <= level <= 9,
        9 <= window_bits <= 15,
    ensures
        (r.0@, r.1, r.2 as nat) == deflated(
            data@,
            finish,
            capacity as nat,
            level as int,
            window_bits as nat,
        ),
        r.0@.len() <= capacity,
        r.2 <= data@.len(),
        finish && data@.len() <= MAX_BLOCK_LEN && capacity >= deflate_bound_of(data@.len()) ==> r.1
            == DeflateStatus::StreamEnd && r.2 == data@.len(),
{
    let mut output = vec![0u8; capacity];
    let mut stream = zlib_rs::Deflate::new(level, false, window_bits);
    let flush = if finish { zlib_rs::DeflateFlush::Finish } else { zlib_rs::DeflateFlush::SyncFlush };
    let status = match stream.compress(data, &mut output, flush) {
        Ok(zlib_rs::Status::Ok) => DeflateStatus::Progress,
        Ok(zlib_rs::Status::BufError) => DeflateStatus::NoProgress,
        Ok(zlib_rs::Status::StreamEnd) => DeflateStatus::StreamEnd,
        Err(_) => DeflateStatus::Failed,
    };
    output.truncate(stream.total_out() as usize);
    (output, status, stream.total_in())
}

/// Whether one codec call on `in_len` bytes, with `capacity` bytes of
/// output space, completed the block: all input consumed and, for the last
/// block, the stream ended; for any other block, the sync flush completed,
/// which the codec shows by leaving some output space unused.
pub open spec fn flush_completed(
    is_last: bool,
    in_len: nat,
    capacity: nat,
    out: (Seq<u8>, DeflateStatus, nat),
) -> bool {
    &&& out.2 == in_len
    &&& if is_last {
        out.1 == DeflateStatus::StreamEnd
    } else {
        out.1 == DeflateStatus::Progress && out.0.len() < capacity
    }
}

/// What the codec gives for `data` at this library's settings and the
/// worst-case output size.
pub open spec fn block_deflate(data: Seq<u8>, is_last: bool) -> (Seq<u8>, DeflateStatus, nat) {
    deflated(
        data,
        is_last,
        deflate_bound_of(data.len()),
        COMPRESSION_LEVEL as int,
        WINDOW_BITS as nat,
    )
}

/// Whether compressing `data` as a block at that position succeeds: the
/// block is at most `MAX_BLOCK_LEN` bytes and the codec completes its flush.
pub open spec fn block_compresses(data: Seq<u8>, is_last: bool) -> bool {
    data.len() <= MAX_BLOCK_LEN && flush_completed(is_last, data.len(), deflate_bound_of(data.len()), block_deflate(data, is_last))
}

/// Decides from one codec outcome whether the block was compressed: the
/// payload when the flush completed, else the error naming the block.
pub fn check_flush(
    index: usize,
    is_last: bool,
    in_len: u64,
    capacity: usize,
    out: (Vec<u8>, DeflateStatus, u64),
) -> (r: Result<Vec<u8>, CompressError>)
    ensures
        flush_completed(is_last, in_len as nat, capacity as nat, (out.0@, out.1, out.2 as nat))
            ==> r is Ok && r->Ok_0@ == out.0@,
        !flush_completed(is_last, in_len as nat, capacity as nat, (out.0@, out.1, out.2 as nat))
            ==> r == Err::<Vec<u8>, CompressError>(CompressError::Compression { index }),
{
    let (payload, status, consumed) = out;
    let ok = if is_last {
        status == DeflateStatus::StreamEnd
    } else {
        status == DeflateStatus::Progress && payload.len() < capacity
    };
    if consumed == in_len && ok {
        Ok(payload)
    } else {
        Err(CompressError::Compression { index })
    }
}

/// Compresses block `index` of the input: raw DEFLATE, finished when the
/// block is the last one and sync-flushed otherwise, into an output buffer
/// of the codec's worst-case size; the checksum is the CRC-32 of the
/// block's original bytes. A block longer than `MAX_BLOCK_LEN` is refused
/// before the codec is called. The last block always compresses.
pub fn compress_block(data: &[u8], index: usize, is_last: bool) -> (r: Result<
    CompressedBlock,
    CompressError,
>)
    ensures
        block_compresses(data@, is_last) <==> r is Ok,
        is_last && data@.len() <= MAX_BLOCK_LEN ==> r is Ok,
        r is Ok ==> {
            let b = r->Ok_0;
            &&& b.index == index
            &&& b.payload@ == block_deflate(data@, is_last).0
            &&& b.checksum == crc32_of(data@)
            &&& b.original_len == data@.len()
            &&& b.payload@.len() <= deflate_bound_of(data@.len())
        },
        r is Err ==> r == Err::<CompressedBlock, CompressError>(CompressError::Compression { index }),
{
    if data.len() > MAX_BLOCK_LEN {
        return Err(CompressError::Compression { index });
    }
    let capacity = deflate_bound(data.len());
    let out = deflate_raw(data, capacity, is_last, COMPRESSION_LEVEL, WINDOW_BITS);
    let payload = check_flush(index, is_last, data.len() as u64, capacity, out)?;
    let checksum = crc32(data);
    Ok(CompressedBlock { index, payload, checksum, original_len: data.len() as u64 })
}

} // verus!
