//! Cutting an input of `len` bytes into ordered blocks of `block_size` bytes.
use vstd::prelude::*;

use crate::error::CompressError;

verus! {

/// Number of blocks: zero for an empty input, else the ceiling of `len / bs`.
pub open spec fn num_blocks(len: nat, bs: nat) -> nat
    recommends
        bs > 0,
{
    if len == 0 {
        0
    } else {
        ((len - 1) as nat / bs + 1) as nat
    }
}

/// First byte of block `i`.
pub open spec fn block_start(i: nat, bs: nat) -> nat {
    i * bs
}

/// One past the last byte of block `i`.
pub open spec fn block_end(i: nat, len: nat, bs: nat) -> nat {
    if (i + 1) * bs <= len {
        (i + 1) * bs
    } else {
        len
    }
}

/// `ranges` is exactly the block layout of an input of `len` bytes.
pub open spec fn is_block_layout(ranges: Seq<(usize, usize)>, len: nat, bs: nat) -> bool {
    &&& ranges.len() == num_blocks(len, bs)
    &&& forall|i: int|
        0 <= i < ranges.len() ==> {
            &&& (#[trigger] ranges[i]).0 == block_start(i as nat, bs)
            &&& ranges[i].1 == block_end(i as nat, len, bs)
        }
}

proof fn lemma_count_bounds(k: nat, len: nat, bs: nat)
    requires
        bs > 0,
        len > 0,
        k * bs >= len,
        k > 0,
        (k - 1) * bs < len,
    ensures
        k == num_blocks(len, bs),
{
    let q = ((len - 1) as nat / bs) as int;
    let r = ((len - 1) as nat % bs) as int;
    vstd::arithmetic::div_mod::lemma_fundamental_div_mod((len - 1) as int, bs as int);
    assert(len - 1 == bs * q + r);
    assert(0 <= r < bs);
    // (k - 1) * bs <= len - 1 < k * bs, so k - 1 is the quotient.
    assert((k - 1) * bs <= len - 1);
    assert(q * bs <= len - 1 < (q + 1) * bs) by (nonlinear_arith)
        requires
            len - 1 == bs * q + r,
            0 <= r < bs,
    ;
    if k - 1 < q {
        assert((k - 1 + 1) * bs <= q * bs) by (nonlinear_arith)
            requires
                k - 1 < q,
                bs > 0,
        ;
    } else if k - 1 > q {
        assert((q + 1) * bs <= (k - 1) * bs) by (nonlinear_arith)
            requires
                k - 1 > q,
                bs > 0,
        ;
    }
}

/// Splits `len` bytes into contiguous, non-overlapping blocks of
/// `block_size` bytes (the last one holds the remainder), as half-open
/// `(start, end)` ranges in order. A zero block size is refused.
pub fn split_blocks(len: usize, block_size: usize) -> (r: Result<Vec<(usize, usize)>, CompressError>)
    ensures
        block_size == 0 ==> r == Err::<Vec<(usize, usize)>, CompressError>(
            CompressError::ZeroBlockSize,
        ),
        block_size > 0 ==> r is Ok && is_block_layout(r->Ok_0@, len as nat, block_size as nat),
{
    if block_size == 0 {
        return Err(CompressError::ZeroBlockSize);
    }
    let mut ranges: Vec<(usize, usize)> = Vec::new();
    let mut start: usize = 0;
    assert(0 * block_size == 0) by (nonlinear_arith);
    while start < len
        invariant
            block_size > 0,
            start <= len,
            start == ranges@.len() * block_size,
            ranges@.len() > 0 ==> start < len,
            forall|i: int|
                0 <= i < ranges@.len() ==> {
                    &&& (#[trigger] ranges@[i]).0 == block_start(i as nat, block_size as nat)
                    &&& ranges@[i].1 == block_end(i as nat, len as nat, block_size as nat)
                },
        decreases len - start,
    {
        let k = ranges.len();
        let end: usize = if len - start > block_size {
            start + block_size
        } else {
            len
        };
        proof {
            assert((k + 1) * block_size == k * block_size + block_size) by (nonlinear_arith);
        }
        ranges.push((start, end));
        if end == len {
            proof {
                assert(ranges@.len() * block_size >= len);
                assert((ranges@.len() - 1) * block_size < len);
                lemma_count_bounds(ranges@.len(), len as nat, block_size as nat);
            }
            return Ok(ranges);
        }
        start = end;
    }
    Ok(ranges)
}

} // verus!
