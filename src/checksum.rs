//! CRC-32 of byte ranges, and the combination of the checksums of two
//! adjacent ranges into the checksum of their concatenation.
use vstd::prelude::*;

verus! {

/// The CRC-32 (IEEE, as in gzip) of a byte sequence.
pub uninterp spec fn crc32_of(data: Seq<u8>) -> u32;

/// The CRC-32 of `a ++ b` computed from `crc(a)`, `crc(b)` and `len(b)`.
pub uninterp spec fn crc32_combined(crc_a: u32, crc_b: u32, len_b: nat) -> u32;

/// The concatenation of a sequence of byte sequences, in order.
pub open spec fn concat(parts: Seq<Seq<u8>>) -> Seq<u8>
    decreases parts.len(),
{
    if parts.len() == 0 {
        Seq::empty()
    } else {
        concat(parts.drop_last()) + parts.last()
    }
}

pub proof fn lemma_concat_push(parts: Seq<Seq<u8>>, x: Seq<u8>)
    ensures
        concat(parts.push(x)) == concat(parts) + x,
{
    assert(parts.push(x).drop_last() =~= parts);
}

/// Relies on `crc32fast::hash`: the CRC-32 of `data`, which depends on the
/// bytes alone; the checksum of no bytes is 0.
#[verifier::external_body]
pub(crate) fn crc32(data: &[u8]) -> (r: u32)
    ensures
        r == crc32_of(data@),
        data@.len() == 0 ==> r == 0,
{
    crc32fast::hash(data)
}

/// Relies on `crc32fast::Hasher::combine` (with `Hasher::new_with_initial`,
/// `Hasher::new_with_initial_len` and `Hasher::finalize`): from `crc(a)`,
/// `crc(b)` and `len(b)` it computes `crc(a ++ b)`; the result depends on
/// those three values alone.
#[verifier::external_body]
pub(crate) fn crc32_combine(crc_a: u32, crc_b: u32, len_b: u64) -> (r: u32)
    ensures
        r == crc32_combined(crc_a, crc_b, len_b as nat),
        forall|a: Seq<u8>, b: Seq<u8>|
            #![trigger crc32_of(a), crc32_of(b)]
            crc32_of(a) == crc_a && crc32_of(b) == crc_b && b.len() == len_b ==> r
                == crc32_of(a + b),
{
    let mut hasher = crc32fast::Hasher::new_with_initial(crc_a);
    hasher.combine(&crc32fast::Hasher::new_with_initial_len(crc_b, len_b));
    hasher.finalize()
}

} // verus!
