//! Whole containers: reassembling compressed blocks delivered in any order,
//! and compressing a whole input block by block.
use vstd::prelude::*;

use crate::checksum::{concat, crc32_of, lemma_concat_push};
use crate::codec::{block_compresses, block_deflate, compress_block, CompressedBlock, MAX_BLOCK_LEN};
use crate::container::{gzip_header_spec, header, trailer_spec};
use crate::error::CompressError;
use crate::reassembly::{
    describes,
    is_combined_checksum,
    payload_stream,
    folded_checksum,
    payloads,
    total_len,
    Reassembler,
};
use crate::segment::{block_end, block_start, num_blocks, split_blocks};

verus! {

/// The indices of `blocks` are exactly `0..blocks.len()`, each once.
pub open spec fn is_index_permutation(blocks: Seq<CompressedBlock>) -> bool {
    &&& forall|j: int| 0 <= j < blocks.len() ==> (#[trigger] blocks[j]).index < blocks.len()
    &&& forall|j1: int, j2: int|
        0 <= j1 < blocks.len() && 0 <= j2 < blocks.len() && j1 != j2 ==> (#[trigger] blocks[j1]).index
            != (#[trigger] blocks[j2]).index
    &&& forall|k: int| 0 <= k < blocks.len() ==> #[trigger] holds_index(blocks, k)
}

/// Some block of `blocks` has index `k`.
pub open spec fn holds_index(blocks: Seq<CompressedBlock>, k: int) -> bool {
    exists|j: int| 0 <= j < blocks.len() && (#[trigger] blocks[j]).index == k
}

/// `blocks` rearranged so that the block with index `k` stands at `k`.
pub open spec fn by_index(blocks: Seq<CompressedBlock>) -> Seq<CompressedBlock> {
    Seq::new(
        blocks.len(),
        |k: int| blocks[choose|j: int| 0 <= j < blocks.len() && (#[trigger] blocks[j]).index == k],
    )
}

/// The container for `blocks` in index order, given the CRC-32 of the
/// original bytes they were made from.
pub open spec fn container_spec(blocks: Seq<CompressedBlock>, crc: u32) -> Seq<u8> {
    gzip_header_spec() + payload_stream(blocks) + trailer_spec(crc, total_len(blocks))
}

/// Whatever order the same blocks arrive in, they are put in the same
/// order: any two arrival orders of one set of blocks give one stream.
pub proof fn lemma_arrival_order_irrelevant(
    first: Seq<CompressedBlock>,
    second: Seq<CompressedBlock>,
)
    requires
        first.len() == second.len(),
        is_index_permutation(first),
        is_index_permutation(second),
        forall|j: int| 0 <= j < second.len() ==> first.contains(#[trigger] second[j]),
    ensures
        by_index(first) == by_index(second),
{
    assert forall|k: int| 0 <= k < first.len() implies by_index(first)[k] == by_index(second)[k] by {
        assert(holds_index(first, k));
        assert(holds_index(second, k));
        let j2 = choose|j: int| 0 <= j < second.len() && (#[trigger] second[j]).index == k;
        let j1 = choose|j: int| 0 <= j < first.len() && (#[trigger] first[j]).index == k;
        assert(0 <= j2 < second.len() && second[j2].index == k);
        assert(0 <= j1 < first.len() && first[j1].index == k);
        assert(first.contains(second[j2]));
        let i = choose|i: int| 0 <= i < first.len() && first[i] == second[j2];
        assert(first[i].index == first[j1].index);
    }
    assert(by_index(first) =~= by_index(second));
}

proof fn lemma_by_index_in_order(blocks: Seq<CompressedBlock>)
    requires
        forall|j: int| 0 <= j < blocks.len() ==> (#[trigger] blocks[j]).index == j,
    ensures
        is_index_permutation(blocks),
        by_index(blocks) == blocks,
{
    assert forall|k: int| 0 <= k < blocks.len() implies #[trigger] holds_index(blocks, k) by {
        assert(blocks[k].index == k);
    }
    assert(by_index(blocks) =~= blocks);
}

/// Byte ranges that blocks describe add up, in length, to the blocks'
/// total original length.
pub proof fn lemma_described_length(parts: Seq<Seq<u8>>, blocks: Seq<CompressedBlock>)
    requires
        describes(parts, blocks),
    ensures
        concat(parts).len() == total_len(blocks),
    decreases blocks.len(),
{
    if blocks.len() > 0 {
        let pi = parts.drop_last();
        let bi = blocks.drop_last();
        assert(describes(pi, bi)) by {
            assert forall|i: int| 0 <= i < pi.len() implies {
                &&& crc32_of(#[trigger] pi[i]) == bi[i].checksum
                &&& pi[i].len() == bi[i].original_len
            } by {
                assert(pi[i] == parts[i]);
            }
        }
        lemma_described_length(pi, bi);
        lemma_concat_push(pi, parts.last());
        assert(pi.push(parts.last()) =~= parts);
        assert(crc32_of(parts[parts.len() - 1]) == blocks[parts.len() - 1].checksum);
    } else {
        assert(concat(parts) =~= Seq::<u8>::empty());
    }
}

/// Feeds `blocks` to a reassembler in the order given and returns the whole
/// container: header, the payloads in index order, trailer. Succeeds exactly
/// when the blocks' indices are `0..blocks.len()`, each once; the trailer
/// then holds the CRC-32 and the length (modulo 2^32) of any original bytes
/// the blocks were made from.
pub fn reassemble(blocks: Vec<CompressedBlock>) -> (r: Result<Vec<u8>, CompressError>)
    ensures
        r is Ok <==> is_index_permutation(blocks@),
        r is Err ==> r == Err::<Vec<u8>, CompressError>(CompressError::Consistency),
        r is Ok ==> r->Ok_0@ == container_spec(by_index(blocks@), folded_checksum(by_index(blocks@))),
        r is Ok ==> is_combined_checksum(folded_checksum(by_index(blocks@)), by_index(blocks@)),
{
    let ghost all = blocks@;
    let n = blocks.len();
    let mut rest = blocks;
    let mut state = Reassembler::new(n);
    let mut out = header();
    let mut i: usize = 0;
    while i < n
        invariant
            i <= n,
            n == all.len(),
            all == blocks@,
            rest@ == all.skip(i as int),
            state.well_formed(),
            state.num_blocks() == n,
            out@ == gzip_header_spec() + state.written(),
            forall|j: int|
                0 <= j < i ==> (#[trigger] all[j]).index < n && state.received().contains_key(
                    all[j].index as int,
                ) && state.received()[all[j].index as int] == all[j],
            forall|k: int| #[trigger]
                state.received().contains_key(k) ==> exists|j: int|
                    0 <= j < i && (#[trigger] all[j]).index == k,
            forall|j1: int, j2: int|
                0 <= j1 < i && 0 <= j2 < i && j1 != j2 ==> (#[trigger] all[j1]).index != (
                #[trigger] all[j2]).index,
        decreases n - i,
    {
        let b = rest.remove(0);
        assert(b == all[i as int]);
        let ghost before = state;
        proof {
            before.lemma_well_formed();
        }
        match state.receive(b) {
            Ok(bytes) => {
                let ghost out_before = out@;
                out.extend_from_slice(bytes.as_slice());
                proof {
                    assert(out@ =~= out_before + bytes@);
                    assert(out@ =~= gzip_header_spec() + state.written());
                    assert(rest@ =~= all.skip(i + 1));
                    assert forall|j1: int, j2: int|
                        0 <= j1 < i + 1 && 0 <= j2 < i + 1 && j1 != j2 implies (#[trigger] all[j1]).index
                        != (#[trigger] all[j2]).index by {
                        if j1 == i {
                            assert(before.received().contains_key(all[j2].index as int));
                        } else if j2 == i {
                            assert(before.received().contains_key(all[j1].index as int));
                        }
                    }
                    assert forall|k: int| #[trigger]
                        state.received().contains_key(k) implies exists|j: int|
                        0 <= j < i + 1 && (#[trigger] all[j]).index == k by {
                        if k != all[i as int].index {
                            assert(before.received().contains_key(k));
                        }
                    }
                }
                i = i + 1;
            },
            Err(e) => {
                proof {
                    if all[i as int].index < n {
                        let k = all[i as int].index as int;
                        assert(before.received().contains_key(k));
                        let j = choose|j: int| 0 <= j < i && (#[trigger] all[j]).index == k;
                        assert(all[j].index == all[i as int].index);
                        assert(j != i);
                    } else {
                        assert(!(all[i as int].index < all.len()));
                    }
                    assert(!is_index_permutation(all));
                }
                return Err(e);
            },
        }
    }
    proof {
        state.lemma_well_formed();
    }
    match state.finish() {
        Ok(t) => {
            let ghost out_before = out@;
            out.extend_from_slice(t.as_slice());
            proof {
                assert forall|k: int| 0 <= k < n implies #[trigger] holds_index(all, k) by {
                    assert(state.received().contains_key(k));
                }
                assert(is_index_permutation(all));
                assert(state.written_blocks() =~= by_index(all)) by {
                    assert forall|k: int| 0 <= k < n implies state.written_blocks()[k] == by_index(
                        all,
                    )[k] by {
                        assert(holds_index(all, k));
                        let j = choose|j: int| 0 <= j < all.len() && (#[trigger] all[j]).index == k;
                        assert(state.received().contains_key(k));
                        assert(state.received()[all[j].index as int] == all[j]);
                    }
                }
                let crc = state.checksum();
                assert(out@ =~= out_before + t@);
                assert(out@ == container_spec(by_index(all), crc) && is_combined_checksum(
                    crc,
                    by_index(all),
                ));
            }
            Ok(out)
        },
        Err(e) => {
            proof {
                let k = state.next_index() as int;
                assert(!state.received().contains_key(k));
                if is_index_permutation(all) {
                    assert(holds_index(all, k));
                    let j = choose|j: int| 0 <= j < all.len() && (#[trigger] all[j]).index == k;
                    assert(state.received().contains_key(all[j].index as int));
                }
            }
            Err(e)
        },
    }
}


/// Number of blocks that go into the DEFLATE stream: the input's blocks, or
/// for an empty input one empty block, since a DEFLATE stream needs at least
/// its final block.
pub open spec fn stream_block_count(len: nat, bs: nat) -> nat {
    if len == 0 {
        1
    } else {
        num_blocks(len, bs)
    }
}

/// The bytes of block `i` of `data`.
pub open spec fn block_data(data: Seq<u8>, i: nat, bs: nat) -> Seq<u8> {
    data.subrange(block_start(i, bs) as int, block_end(i, data.len(), bs) as int)
}

/// The blocks of `data` that go into the stream, in order.
pub open spec fn block_parts(data: Seq<u8>, bs: nat) -> Seq<Seq<u8>> {
    Seq::new(stream_block_count(data.len(), bs), |i: int| block_data(data, i as nat, bs))
}

/// Whether block `i` of `blocks` is the last one.
pub open spec fn is_last_block(i: nat, count: nat) -> bool {
    i + 1 == count
}

/// The DEFLATE stream for `data`: each block's raw DEFLATE output, finished
/// for the last block and sync-flushed for the others, in order.
pub open spec fn deflate_stream(data: Seq<u8>, bs: nat) -> Seq<u8> {
    let n = stream_block_count(data.len(), bs);
    concat(
        Seq::new(
            n,
            |i: int| block_deflate(block_data(data, i as nat, bs), is_last_block(i as nat, n)).0,
        ),
    )
}

/// Every block of `data` compresses.
pub open spec fn all_blocks_compress(data: Seq<u8>, bs: nat) -> bool {
    let n = stream_block_count(data.len(), bs);
    forall|i: int|
        0 <= i < n ==> #[trigger] block_compresses(
            block_data(data, i as nat, bs),
            is_last_block(i as nat, n),
        )
}

/// Block `i` of `data` is the first that does not compress.
pub open spec fn first_failing_block(data: Seq<u8>, bs: nat, i: nat) -> bool {
    let n = stream_block_count(data.len(), bs);
    &&& i < n
    &&& !block_compresses(block_data(data, i, bs), is_last_block(i, n))
    &&& forall|j: int|
        0 <= j < i ==> #[trigger] block_compresses(
            block_data(data, j as nat, bs),
            is_last_block(j as nat, n),
        )
}

proof fn lemma_block_in_range(k: nat, len: nat, bs: nat)
    requires
        bs > 0,
        k < num_blocks(len, bs),
    ensures
        k * bs < len,
        (k + 1) * bs == k * bs + bs,
{
    let q = ((len - 1) as nat / bs) as int;
    let r = ((len - 1) as nat % bs) as int;
    vstd::arithmetic::div_mod::lemma_fundamental_div_mod((len - 1) as int, bs as int);
    vstd::arithmetic::div_mod::lemma_mod_bound((len - 1) as int, bs as int);
    assert(k <= q);
    assert(k * bs < len) by (nonlinear_arith)
        requires
            k <= q,
            bs > 0,
            len - 1 == bs * q + r,
            0 <= r,
    ;
    assert((k + 1) * bs == k * bs + bs) by (nonlinear_arith);
}

proof fn lemma_blocks_cover(len: nat, bs: nat)
    requires
        bs > 0,
    ensures
        num_blocks(len, bs) * bs >= len,
{
    if len > 0 {
        let q = ((len - 1) as nat / bs) as int;
        vstd::arithmetic::div_mod::lemma_fundamental_div_mod((len - 1) as int, bs as int);
        vstd::arithmetic::div_mod::lemma_mod_bound((len - 1) as int, bs as int);
        assert((q + 1) * bs == q * bs + bs) by (nonlinear_arith);
    }
}

proof fn lemma_blocks_prefix(data: Seq<u8>, bs: nat, k: nat)
    requires
        bs > 0,
        k <= num_blocks(data.len(), bs),
    ensures
        concat(block_parts(data, bs).take(k as int)) == data.subrange(
            0,
            (if k * bs <= data.len() { k * bs } else { data.len() }) as int,
        ),
    decreases k,
{
    let parts = block_parts(data, bs);
    if k == 0 {
        assert(0 * bs == 0) by (nonlinear_arith);
        assert(parts.take(0) =~= Seq::<Seq<u8>>::empty());
        assert(data.subrange(0, 0) =~= Seq::<u8>::empty());
    } else {
        let j = (k - 1) as nat;
        lemma_blocks_prefix(data, bs, j);
        lemma_block_in_range(j, data.len(), bs);
        lemma_concat_push(parts.take(j as int), parts[j as int]);
        assert(parts.take(j as int).push(parts[j as int]) =~= parts.take(k as int));
        let e = block_end(j, data.len(), bs);
        assert(data.subrange(0, (j * bs) as int) + data.subrange((j * bs) as int, e as int)
            =~= data.subrange(0, e as int));
    }
}

/// The blocks of an input, put back together, are the input.
pub proof fn lemma_blocks_concat(data: Seq<u8>, bs: nat)
    requires
        bs > 0,
    ensures
        concat(block_parts(data, bs)) == data,
{
    let parts = block_parts(data, bs);
    if data.len() == 0 {
        assert(0 * bs == 0) by (nonlinear_arith);
        assert(parts[0] =~= Seq::<u8>::empty());
        assert(parts.drop_last() =~= Seq::<Seq<u8>>::empty());
        assert(concat(parts.drop_last()) =~= Seq::<u8>::empty());
        assert(concat(parts) =~= data);
    } else {
        let n = num_blocks(data.len(), bs);
        lemma_blocks_prefix(data, bs, n);
        lemma_blocks_cover(data.len(), bs);
        assert(parts.take(n as int) =~= parts);
        assert(data.subrange(0, data.len() as int) =~= data);
    }
}

/// An empty input is compressed as one empty block with a finishing flush,
/// so that the body is still a complete DEFLATE stream.
pub proof fn lemma_empty_input_is_one_empty_block(data: Seq<u8>, bs: nat)
    requires
        data.len() == 0,
        bs > 0,
    ensures
        data == Seq::<u8>::empty(),
        stream_block_count(data.len(), bs) == 1,
        block_data(data, 0, bs) == Seq::<u8>::empty(),
        deflate_stream(data, bs) == block_deflate(Seq::<u8>::empty(), true).0,
{
    assert(data =~= Seq::<u8>::empty());
    assert(0 * bs == 0) by (nonlinear_arith);
    assert(block_data(data, 0, bs) =~= Seq::<u8>::empty());
    let outs = Seq::new(
        1,
        |i: int| block_deflate(block_data(data, i as nat, bs), is_last_block(i as nat, 1)).0,
    );
    assert(outs.drop_last() =~= Seq::<Seq<u8>>::empty());
    assert(concat(outs.drop_last()) =~= Seq::<u8>::empty());
    assert(concat(outs) =~= block_deflate(Seq::<u8>::empty(), true).0);
}

/// The ranges of the blocks to compress for an input of `len` bytes: the
/// input's blocks, or one empty range for an empty input. A zero block size
/// is refused.
pub fn block_plan(len: usize, block_size: usize) -> (r: Result<Vec<(usize, usize)>, CompressError>)
    ensures
        block_size == 0 ==> r == Err::<Vec<(usize, usize)>, CompressError>(
            CompressError::ZeroBlockSize,
        ),
        block_size > 0 ==> r is Ok && r->Ok_0@.len() == stream_block_count(
            len as nat,
            block_size as nat,
        ) && forall|j: int|
            0 <= j < r->Ok_0@.len() ==> {
                &&& (#[trigger] r->Ok_0@[j]).0 == block_start(j as nat, block_size as nat)
                &&& r->Ok_0@[j].1 == block_end(j as nat, len as nat, block_size as nat)
                &&& r->Ok_0@[j].0 <= r->Ok_0@[j].1 <= len
            },
{
    let mut ranges = split_blocks(len, block_size)?;
    if ranges.len() == 0 {
        ranges.push((0, 0));
        proof {
            assert(0 * block_size == 0) by (nonlinear_arith);
        }
    } else {
        proof {
            assert forall|j: int| 0 <= j < ranges@.len() implies (#[trigger] ranges@[j]).0
                <= ranges@[j].1 <= len by {
                lemma_block_in_range(j as nat, len as nat, block_size as nat);
            }
        }
    }
    Ok(ranges)
}

/// Checksums folded block by block equal the checksum of the whole input:
/// if each block of `data` was checksummed on its own and `crc` combines
/// those checksums in order, `crc` is the CRC-32 of `data`, and the blocks'
/// lengths add up to the input's.
pub proof fn lemma_combined_checksum_is_whole(
    data: Seq<u8>,
    bs: nat,
    blocks: Seq<CompressedBlock>,
    crc: u32,
)
    requires
        bs > 0,
        blocks.len() == stream_block_count(data.len(), bs),
        forall|i: int|
            0 <= i < blocks.len() ==> (#[trigger] blocks[i]).checksum == crc32_of(
                block_data(data, i as nat, bs),
            ) && blocks[i].original_len == block_data(data, i as nat, bs).len(),
        is_combined_checksum(crc, blocks),
    ensures
        crc == crc32_of(data),
        total_len(blocks) == data.len(),
{
    let parts = block_parts(data, bs);
    assert(describes(parts, blocks)) by {
        assert forall|i: int| 0 <= i < parts.len() implies {
            &&& crc32_of(#[trigger] parts[i]) == blocks[i].checksum
            &&& parts[i].len() == blocks[i].original_len
        } by {
            assert(parts[i] == block_data(data, i as nat, bs));
        }
    }
    lemma_blocks_concat(data, bs);
    lemma_described_length(parts, blocks);
}

/// An input no longer than one block (and not empty) is a single block,
/// compressed with a finishing flush: the DEFLATE stream is that one
/// block's output.
pub proof fn lemma_short_input_is_one_block(data: Seq<u8>, bs: nat)
    requires
        0 < data.len() <= bs,
    ensures
        num_blocks(data.len(), bs) == 1,
        block_parts(data, bs) == seq![data],
        is_last_block(0, num_blocks(data.len(), bs)),
        deflate_stream(data, bs) == block_deflate(data, true).0,
{
    assert((data.len() - 1) as nat / bs == 0) by (nonlinear_arith)
        requires
            0 < data.len() <= bs,
    ;
    assert(0 * bs == 0) by (nonlinear_arith);
    assert(1 * bs == bs) by (nonlinear_arith);
    assert(data.subrange(0, data.len() as int) =~= data);
    assert(block_parts(data, bs) =~= seq![data]);
    let outs = Seq::new(
        1,
        |i: int| block_deflate(block_data(data, i as nat, bs), is_last_block(i as nat, 1)).0,
    );
    assert(outs.drop_last() =~= Seq::<Seq<u8>>::empty());
    assert(concat(outs.drop_last()) =~= Seq::<u8>::empty());
    assert(concat(outs) =~= block_deflate(data, true).0);
}

/// Compresses `data` into one gzip container, block by block: blocks of
/// `block_size` bytes, each deflated on its own (the last one finished, the
/// others sync-flushed) and checksummed, then put in order behind the
/// header and followed by the trailer. A zero block size is refused before
/// any block is compressed; a block that does not compress fails the whole
/// run, naming the first such block. An input that fits in one block (of
/// at most `MAX_BLOCK_LEN` bytes) always compresses.
pub fn compress(data: &[u8], block_size: usize) -> (r: Result<Vec<u8>, CompressError>)
    ensures
        block_size == 0 ==> r == Err::<Vec<u8>, CompressError>(CompressError::ZeroBlockSize),
        block_size > 0 ==> (r is Ok <==> all_blocks_compress(data@, block_size as nat)),
        block_size > 0 && r is Err ==> exists|i: nat|
            first_failing_block(data@, block_size as nat, i) && r == Err::<Vec<u8>, CompressError>(
                CompressError::Compression { index: i as usize },
            ),
        r is Ok ==> r->Ok_0@ == gzip_header_spec() + deflate_stream(data@, block_size as nat)
            + trailer_spec(crc32_of(data@), data@.len()),
        data@.len() == 0 ==> (r is Ok ==> r->Ok_0@ == gzip_header_spec() + block_deflate(
            Seq::empty(),
            true,
        ).0 + trailer_spec(crc32_of(Seq::empty()), 0)),
        block_size > 0 && data@.len() <= block_size && data@.len() <= MAX_BLOCK_LEN ==> r is Ok,
{
    let ranges = block_plan(data.len(), block_size)?;
    let n = ranges.len();
    let ghost bs = block_size as nat;
    proof {
        if 0 < data@.len() <= block_size {
            lemma_short_input_is_one_block(data@, bs);
        }
    }
    let mut blocks: Vec<CompressedBlock> = Vec::new();
    let mut i: usize = 0;
    while i < n
        invariant
            block_size > 0,
            n == stream_block_count(data@.len(), bs),
            bs == block_size as nat,
            data@.len() <= block_size ==> n == 1,
            forall|j: int|
                0 <= j < ranges@.len() ==> {
                    &&& (#[trigger] ranges@[j]).0 == block_start(j as nat, bs)
                    &&& ranges@[j].1 == block_end(j as nat, data@.len(), bs)
                    &&& ranges@[j].0 <= ranges@[j].1 <= data@.len()
                },
            ranges@.len() == n,
            i <= n,
            blocks@.len() == i,
            forall|j: int|
                0 <= j < i ==> {
                    &&& (#[trigger] blocks@[j]).index == j
                    &&& blocks@[j].payload@ == block_deflate(
                        block_data(data@, j as nat, bs),
                        is_last_block(j as nat, n as nat),
                    ).0
                    &&& blocks@[j].checksum == crc32_of(block_data(data@, j as nat, bs))
                    &&& blocks@[j].original_len == block_data(data@, j as nat, bs).len()
                    &&& block_compresses(
                        block_data(data@, j as nat, bs),
                        is_last_block(j as nat, n as nat),
                    )
                },
        decreases n - i,
    {
        let (start, end) = ranges[i];
        let piece = &data[start..end];
        assert(piece@ == block_data(data@, i as nat, bs));
        match compress_block(piece, i, i + 1 == n) {
            Ok(b) => {
                blocks.push(b);
                i = i + 1;
            },
            Err(e) => {
                proof {
                    assert forall|j: int| 0 <= j < i implies #[trigger] block_compresses(
                        block_data(data@, j as nat, bs),
                        is_last_block(j as nat, n as nat),
                    ) by {
                        assert(blocks@[j].index == j);
                    }
                    assert(!block_compresses(piece@, is_last_block(i as nat, n as nat)));
                }
                assert(first_failing_block(data@, bs, i as nat));
                return Err(e);
            },
        }
    }
    proof {
        lemma_by_index_in_order(blocks@);
    }
    let ghost made = blocks@;
    let r = reassemble(blocks);
    proof {
        assert forall|j: int| 0 <= j < made.len() implies #[trigger] block_compresses(
            block_data(data@, j as nat, bs),
            is_last_block(j as nat, n as nat),
        ) by {
            assert(made[j].index == j);
        }
        let parts = block_parts(data@, bs);
        assert(describes(parts, made)) by {
            assert forall|j: int| 0 <= j < parts.len() implies {
                &&& crc32_of(#[trigger] parts[j]) == made[j].checksum
                &&& parts[j].len() == made[j].original_len
            } by {
                assert(parts[j] == block_data(data@, j as nat, bs));
                assert(made[j].index == j);
            }
        }
        lemma_blocks_concat(data@, bs);
        lemma_described_length(parts, made);
        assert(payloads(made) =~= Seq::new(
            n as nat,
            |j: int| block_deflate(block_data(data@, j as nat, bs), is_last_block(j as nat, n as nat)).0,
        )) by {
            assert forall|j: int| 0 <= j < n implies payloads(made)[j] == block_deflate(
                block_data(data@, j as nat, bs),
                is_last_block(j as nat, n as nat),
            ).0 by {
                assert(made[j].index == j);
            }
        }
    }
    proof {
        if data@.len() == 0 {
            lemma_empty_input_is_one_empty_block(data@, bs);
        }
    }
    r
}

} // verus!
