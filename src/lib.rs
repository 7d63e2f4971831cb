//! Parallel-friendly gzip compression of a byte buffer, block by block.
//!
//! The input is cut into fixed-size blocks; each block is deflated on its own
//! (sync-flushed, the last one finished) together with its CRC-32, and a
//! reassembler emits the compressed blocks strictly in index order whatever
//! order they arrive in, folding the checksums into the one of the whole input.
//!
//! Strategy: the streaming one. Blocks are compressed in parallel and handed
//! to one `reassembly::Reassembler`, which releases each block's payload as
//! soon as every earlier block has been released; the pending buffer holds
//! only blocks that arrived ahead of the write cursor. `pipeline::compress`
//! and `pipeline::reassemble` drive that same reassembler serially over an
//! in-memory input. They are not a second strategy: their contracts state
//! the whole container that the streaming run writes.
pub mod checksum;
pub mod codec;
pub mod container;
pub mod error;
pub mod pipeline;
pub mod reassembly;
pub mod segment;
