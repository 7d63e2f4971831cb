//! The gzip framing around the DEFLATE body: the fixed header and the
//! eight-byte trailer (CRC-32, then the input length modulo 2^32, both
//! little-endian).
use vstd::prelude::*;

verus! {

/// The gzip header this library writes: magic `1f 8b`, method 8 (DEFLATE),
/// no flags, modification time 0, no extra flags, and OS "unknown" (255).
pub open spec fn gzip_header_spec() -> Seq<u8> {
    seq![0x1fu8, 0x8bu8, 8u8, 0u8, 0u8, 0u8, 0u8, 0u8, 0u8, 255u8]
}

/// Relies on `gzip_header::GzBuilder` (`new`, `os`, `into_header`): with no
/// extra field, name or comment, the ten fixed header bytes with mtime 0,
/// XFL 0 and the requested OS byte.
#[verifier::external_body]
pub(crate) fn gzip_header() -> (r: Vec<u8>)
    ensures
        r@ == gzip_header_spec(),
{
    gzip_header::GzBuilder::new().os(gzip_header::FileSystemType::Unknown).into_header()
}

/// The header every container starts with.
pub fn header() -> (r: Vec<u8>)
    ensures
        r@ == gzip_header_spec(),
{
    gzip_header()
}

/// Four little-endian bytes of `v`.
pub open spec fn le32(v: u32) -> Seq<u8> {
    seq![
        (v % 256) as u8,
        ((v / 256) % 256) as u8,
        ((v / 65536) % 256) as u8,
        (v / 16777216) as u8,
    ]
}

/// The gzip trailer for an input with checksum `crc` and length `len`.
pub open spec fn trailer_spec(crc: u32, len: nat) -> Seq<u8> {
    le32(crc) + le32((len % 0x1_0000_0000) as u32)
}

/// Appends the four little-endian bytes of `v` to `out`.
pub fn push_le32(out: &mut Vec<u8>, v: u32)
    ensures
        final(out)@ == old(out)@ + le32(v),
{
    out.push((v % 256) as u8);
    out.push(((v / 256) % 256) as u8);
    out.push(((v / 65536) % 256) as u8);
    out.push((v / 16777216) as u8);
    assert(final(out)@ =~= old(out)@ + le32(v));
}

/// The trailer: `crc`, then the size field `size_mod` (the input length
/// modulo 2^32), each as four little-endian bytes.
pub fn trailer(crc: u32, size_mod: u32) -> (r: Vec<u8>)
    ensures
        r@ == le32(crc) + le32(size_mod),
        r@.len() == 8,
{
    let mut out: Vec<u8> = Vec::new();
    push_le32(&mut out, crc);
    push_le32(&mut out, size_mod);
    assert(out@ =~= le32(crc) + le32(size_mod));
    out
}

} // verus!
