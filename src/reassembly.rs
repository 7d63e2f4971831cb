//! The ordering reassembler: accepts compressed blocks in any order, emits
//! their payloads strictly by index, and folds their checksums and lengths
//! into those of the whole input.
use vstd::prelude::*;

use crate::checksum::{concat, crc32, crc32_combine, crc32_combined, crc32_of, lemma_concat_push};
use crate::codec::CompressedBlock;
use crate::container::{trailer, trailer_spec};
use crate::error::CompressError;

verus! {

/// The blocks with indices `0..k` of `received`, in index order.
pub open spec fn prefix_blocks(received: Map<int, CompressedBlock>, k: nat) -> Seq<CompressedBlock> {
    Seq::new(k, |i: int| received[i])
}

/// The payloads of `blocks`, in order.
pub open spec fn payloads(blocks: Seq<CompressedBlock>) -> Seq<Seq<u8>> {
    blocks.map_values(|b: CompressedBlock| b.payload@)
}

/// The payloads of `blocks` concatenated, in order.
pub open spec fn payload_stream(blocks: Seq<CompressedBlock>) -> Seq<u8> {
    concat(payloads(blocks))
}

/// The summed original lengths of `blocks`.
pub open spec fn total_len(blocks: Seq<CompressedBlock>) -> nat
    decreases blocks.len(),
{
    if blocks.len() == 0 {
        0
    } else {
        total_len(blocks.drop_last()) + blocks.last().original_len as nat
    }
}

/// The checksums of `blocks` folded in order, starting from the checksum of
/// no bytes (0).
pub open spec fn folded_checksum(blocks: Seq<CompressedBlock>) -> u32
    decreases blocks.len(),
{
    if blocks.len() == 0 {
        0
    } else {
        crc32_combined(
            folded_checksum(blocks.drop_last()),
            blocks.last().checksum,
            blocks.last().original_len as nat,
        )
    }
}

/// `parts` are byte ranges that `blocks` were made from: one per block,
/// each with that block's checksum and original length.
pub open spec fn describes(parts: Seq<Seq<u8>>, blocks: Seq<CompressedBlock>) -> bool {
    &&& parts.len() == blocks.len()
    &&& forall|i: int|
        0 <= i < parts.len() ==> {
            &&& crc32_of(#[trigger] parts[i]) == blocks[i].checksum
            &&& parts[i].len() == blocks[i].original_len
        }
}

/// `crc` is the CRC-32 of the concatenation of any byte ranges that
/// `blocks` could have been made from.
pub open spec fn is_combined_checksum(crc: u32, blocks: Seq<CompressedBlock>) -> bool {
    forall|parts: Seq<Seq<u8>>| #[trigger] describes(parts, blocks) ==> crc32_of(concat(parts)) == crc
}

/// Every index below `next` has been received, and `next` itself (when it
/// is a block index) has not: `next` is the write cursor.
pub open spec fn is_write_cursor(received: Map<int, CompressedBlock>, next: nat, n: nat) -> bool {
    &&& next <= n
    &&& forall|i: int| 0 <= i < next ==> #[trigger] received.contains_key(i)
    &&& next < n ==> !received.contains_key(next as int)
}

proof fn lemma_checksum_step(crc: u32, blocks: Seq<CompressedBlock>, b: CompressedBlock, crc2: u32)
    requires
        is_combined_checksum(crc, blocks),
        forall|a: Seq<u8>, y: Seq<u8>|
            #![trigger crc32_of(a), crc32_of(y)]
            crc32_of(a) == crc && crc32_of(y) == b.checksum && y.len() == b.original_len ==> crc2
                == crc32_of(a + y),
    ensures
        is_combined_checksum(crc2, blocks.push(b)),
{
    assert forall|parts: Seq<Seq<u8>>| #[trigger]
        describes(parts, blocks.push(b)) implies crc32_of(concat(parts)) == crc2 by {
        let init = parts.drop_last();
        let y = parts.last();
        assert(describes(init, blocks)) by {
            assert forall|i: int| 0 <= i < init.len() implies {
                &&& crc32_of(#[trigger] init[i]) == blocks[i].checksum
                &&& init[i].len() == blocks[i].original_len
            } by {
                assert(init[i] == parts[i]);
                assert(blocks.push(b)[i] == blocks[i]);
            }
        }
        assert(crc32_of(parts[parts.len() - 1]) == blocks.push(b)[parts.len() - 1].checksum);
        assert(crc32_of(concat(init)) == crc);
        lemma_concat_push(init, y);
        assert(init.push(y) =~= parts);
    }
}

proof fn lemma_checksum_empty(crc: u32)
    requires
        crc == crc32_of(Seq::<u8>::empty()),
    ensures
        is_combined_checksum(crc, Seq::<CompressedBlock>::empty()),
{
    assert forall|parts: Seq<Seq<u8>>| #[trigger]
        describes(parts, Seq::<CompressedBlock>::empty()) implies crc32_of(concat(parts)) == crc by {
        assert(parts.len() == 0);
        assert(concat(parts) =~= Seq::<u8>::empty());
    }
}

proof fn lemma_prefix_push(received: Map<int, CompressedBlock>, k: nat)
    requires
        received.contains_key(k as int),
    ensures
        prefix_blocks(received, k + 1) == prefix_blocks(received, k).push(received[k as int]),
        payload_stream(prefix_blocks(received, k + 1)) == payload_stream(prefix_blocks(received, k))
            + received[k as int].payload@,
        total_len(prefix_blocks(received, k + 1)) == total_len(prefix_blocks(received, k))
            + received[k as int].original_len,
{
    let p = prefix_blocks(received, k);
    let q = prefix_blocks(received, k + 1);
    assert(q =~= p.push(received[k as int]));
    assert(payloads(q) =~= payloads(p).push(received[k as int].payload@));
    lemma_concat_push(payloads(p), received[k as int].payload@);
    assert(q.drop_last() =~= p);
}

proof fn lemma_prefix_insert(received: Map<int, CompressedBlock>, k: nat, idx: int, b: CompressedBlock)
    requires
        idx >= k,
        forall|i: int| 0 <= i < k ==> #[trigger] received.contains_key(i),
    ensures
        prefix_blocks(received.insert(idx, b), k) == prefix_blocks(received, k),
{
    assert(prefix_blocks(received.insert(idx, b), k) =~= prefix_blocks(received, k));
}

/// Buffers compressed blocks that arrive ahead of the write cursor and
/// releases them in index order.
pub struct Reassembler {
    /// One slot per block: a block waiting for its turn, or nothing.
    slots: Vec<Option<CompressedBlock>>,
    /// Index of the next block to write.
    next: usize,
    /// CRC-32 of everything written so far.
    crc: u32,
    /// Length of everything written so far, modulo 2^32.
    size_mod: u32,
    /// Every block accepted so far, by index.
    received: Ghost<Map<int, CompressedBlock>>,
    /// Every payload byte released so far.
    written: Ghost<Seq<u8>>,
}

impl Reassembler {
    /// Number of blocks the input was cut into.
    pub closed spec fn num_blocks(&self) -> nat {
        self.slots@.len()
    }

    /// Index of the next block to write.
    pub closed spec fn next_index(&self) -> nat {
        self.next as nat
    }

    /// Every block accepted so far, by index (written or waiting).
    pub closed spec fn received(&self) -> Map<int, CompressedBlock> {
        self.received@
    }

    /// Every payload byte released so far, in release order.
    pub closed spec fn written(&self) -> Seq<u8> {
        self.written@
    }

    /// The CRC-32 folded from the checksums of the blocks written so far.
    pub closed spec fn checksum(&self) -> u32 {
        self.crc
    }

    /// The blocks written so far, in index order.
    pub open spec fn written_blocks(&self) -> Seq<CompressedBlock> {
        prefix_blocks(self.received(), self.next_index())
    }

    /// The state's invariant, apart from the cursor being at the first gap.
    closed spec fn inv_core(&self) -> bool {
        let n = self.slots@.len();
        let k = self.next as nat;
        &&& k <= n
        &&& forall|i: int| #[trigger]
            self.received@.contains_key(i) ==> 0 <= i < n && self.received@[i].index == i
        &&& forall|i: int| 0 <= i < k ==> #[trigger] self.received@.contains_key(i)
        &&& forall|i: int| 0 <= i < k ==> (#[trigger] self.slots@[i]) is None
        &&& forall|i: int|
            k <= i < n ==> ((#[trigger] self.slots@[i]) is Some <==> self.received@.contains_key(i))
        &&& forall|i: int|
            k <= i < n && (#[trigger] self.slots@[i]) is Some ==> self.slots@[i]->Some_0
                == self.received@[i]
        &&& self.written@ == payload_stream(prefix_blocks(self.received@, k))
        &&& is_combined_checksum(self.crc, prefix_blocks(self.received@, k))
        &&& self.crc == folded_checksum(prefix_blocks(self.received@, k))
        &&& self.size_mod as nat == total_len(prefix_blocks(self.received@, k)) % 0x1_0000_0000
    }

    /// The reassembler's invariant.
    pub closed spec fn well_formed(&self) -> bool {
        &&& self.inv_core()
        &&& is_write_cursor(self.received@, self.next as nat, self.slots@.len())
    }

    /// What the invariant tells a caller.
    pub proof fn lemma_well_formed(&self)
        requires
            self.well_formed(),
        ensures
            is_write_cursor(self.received(), self.next_index(), self.num_blocks()),
            forall|i: int| #[trigger]
                self.received().contains_key(i) ==> 0 <= i < self.num_blocks()
                    && self.received()[i].index == i,
            self.written() == payload_stream(self.written_blocks()),
            is_combined_checksum(self.checksum(), self.written_blocks()),
            self.checksum() == folded_checksum(self.written_blocks()),
    {
    }

    /// A reassembler for `num_blocks` blocks, with nothing received.
    pub fn new(num_blocks: usize) -> (r: Reassembler)
        ensures
            r.well_formed(),
            r.num_blocks() == num_blocks,
            r.next_index() == 0,
            r.received() == Map::<int, CompressedBlock>::empty(),
            r.written() == Seq::<u8>::empty(),
    {
        let mut slots: Vec<Option<CompressedBlock>> = Vec::new();
        let mut i: usize = 0;
        while i < num_blocks
            invariant
                i <= num_blocks,
                slots@.len() == i,
                forall|j: int| 0 <= j < i ==> (#[trigger] slots@[j]) is None,
            decreases num_blocks - i,
        {
            slots.push(None);
            i = i + 1;
        }
        let no_bytes: Vec<u8> = Vec::new();
        let identity = crc32(no_bytes.as_slice());
        let ghost received = Map::<int, CompressedBlock>::empty();
        proof {
            lemma_checksum_empty(identity);
            assert(prefix_blocks(received, 0) =~= Seq::<CompressedBlock>::empty());
            assert(payloads(prefix_blocks(received, 0)) =~= Seq::<Seq<u8>>::empty());
            assert(folded_checksum(prefix_blocks(received, 0)) == 0);
        }
        Reassembler {
            slots,
            next: 0,
            crc: identity,
            size_mod: 0,
            received: Ghost(received),
            written: Ghost(Seq::empty()),
        }
    }

    /// Whether `index` names a block that this reassembler can still accept.
    pub open spec fn accepts(&self, index: usize) -> bool {
        index < self.num_blocks() && !self.received().contains_key(index as int)
    }

    /// Takes a finished block. A block whose index is out of range or was
    /// already received is refused and the state is left unchanged. Otherwise
    /// it is stored and every block from the write cursor on that is present
    /// is released: the result is their payloads, concatenated in index order.
    pub fn receive(&mut self, block: CompressedBlock) -> (r: Result<Vec<u8>, CompressError>)
        requires
            old(self).well_formed(),
        ensures
            final(self).well_formed(),
            final(self).num_blocks() == old(self).num_blocks(),
            is_write_cursor(final(self).received(), final(self).next_index(), final(self).num_blocks()),
            final(self).written() == payload_stream(final(self).written_blocks()),
            old(self).accepts(block.index) <==> r is Ok,
            !old(self).accepts(block.index) ==> r == Err::<Vec<u8>, CompressError>(
                CompressError::Consistency,
            ) && *final(self) == *old(self),
            r is Ok ==> {
                &&& final(self).received() == old(self).received().insert(block.index as int, block)
                &&& final(self).written() == old(self).written() + r->Ok_0@
                &&& final(self).next_index() >= old(self).next_index()
            },
    {
        let idx = block.index;
        if idx >= self.slots.len() || idx < self.next || self.slots[idx].is_some() {
            proof {
                if idx < self.slots@.len() && idx >= self.next {
                    assert(self.slots@[idx as int] is Some <==> self.received@.contains_key(
                        idx as int,
                    ));
                }
            }
            return Err(CompressError::Consistency);
        }
        let ghost old_received = self.received@;
        let ghost k0 = self.next as nat;
        proof {
            lemma_prefix_insert(old_received, k0, idx as int, block);
            self.received@ = self.received@.insert(idx as int, block);
        }
        self.slots.set(idx, Some(block));
        let mut out: Vec<u8> = Vec::new();
        while self.next < self.slots.len() && self.slots[self.next].is_some()
            invariant
                self.inv_core(),
                self.slots@.len() == old(self).slots@.len(),
                self.received@ == old_received.insert(idx as int, block),
                self.written@ == old(self).written@ + out@,
                self.next >= k0,
            decreases self.slots@.len() - self.next,
        {
            let k = self.next;
            let mut slot: Option<CompressedBlock> = None;
            std::mem::swap(&mut slot, &mut self.slots[k]);
            let b = slot.unwrap();
            proof {
                lemma_prefix_push(self.received@, k as nat);
            }
            let ghost blocks = prefix_blocks(self.received@, k as nat);
            let crc = crc32_combine(self.crc, b.checksum, b.original_len);
            proof {
                lemma_checksum_step(self.crc, blocks, b, crc);
                assert(blocks.push(b).drop_last() =~= blocks);
                vstd::arithmetic::div_mod::lemma_add_mod_noop(
                    total_len(blocks) as int,
                    b.original_len as int,
                    0x1_0000_0000,
                );
                vstd::arithmetic::div_mod::lemma_mod_twice(b.original_len as int, 0x1_0000_0000);
            }
            self.crc = crc;
            self.size_mod = ((self.size_mod as u64 + b.original_len % 0x1_0000_0000)
                % 0x1_0000_0000) as u32;
            let ghost out_before = out@;
            out.extend_from_slice(b.payload.as_slice());
            proof {
                self.written@ = self.written@ + b.payload@;
                assert(out@ =~= out_before + b.payload@);
                assert(self.written@ =~= old(self).written@ + out@);
            }
            self.next = k + 1;
        }
        Ok(out)
    }

    /// Ends the stream: refused unless every block has been written (which
    /// leaves nothing pending); otherwise the eight trailer bytes, the
    /// combined CRC-32 and the total original length modulo 2^32.
    pub fn finish(&self) -> (r: Result<Vec<u8>, CompressError>)
        requires
            self.well_formed(),
        ensures
            r is Ok <==> self.next_index() == self.num_blocks(),
            r is Err ==> r == Err::<Vec<u8>, CompressError>(CompressError::Consistency),
            r is Ok ==> r->Ok_0@ == trailer_spec(self.checksum(), total_len(self.written_blocks())),
            is_combined_checksum(self.checksum(), self.written_blocks()),
            self.checksum() == folded_checksum(self.written_blocks()),
    {
        if self.next != self.slots.len() {
            return Err(CompressError::Consistency);
        }
        let t = trailer(self.crc, self.size_mod);
        Ok(t)
    }
}

} // verus!
