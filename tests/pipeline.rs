use blockgz::codec::{check_flush, compress_block, CompressedBlock, DeflateStatus};
use blockgz::container::{header, push_le32, trailer};
use blockgz::error::CompressError;
use blockgz::pipeline::{block_plan, compress, reassemble};
use blockgz::reassembly::Reassembler;
use blockgz::segment::split_blocks;

const GZIP_HEADER: [u8; 10] = [0x1f, 0x8b, 8, 0, 0, 0, 0, 0, 0, 255];

fn gunzip(container: &[u8], expected_len: usize) -> Vec<u8> {
    let mut out = vec![0u8; expected_len + 64];
    let config = zlib_rs::InflateConfig { window_bits: 31 };
    let (plain, rc) = zlib_rs::decompress_slice(&mut out, container, config);
    assert_eq!(rc, zlib_rs::ReturnCode::Ok);
    plain.to_vec()
}

fn trailer_fields(container: &[u8]) -> (u32, u32) {
    let n = container.len();
    let crc = u32::from_le_bytes([container[n - 8], container[n - 7], container[n - 6], container[n - 5]]);
    let size = u32::from_le_bytes([container[n - 4], container[n - 3], container[n - 2], container[n - 1]]);
    (crc, size)
}

fn sample(len: usize) -> Vec<u8> {
    (0..len).map(|i| ((i * 31 + i / 7) % 251) as u8).collect()
}

fn blocks_of(data: &[u8], block_size: usize) -> Vec<CompressedBlock> {
    let ranges = split_blocks(data.len(), block_size).unwrap();
    let n = ranges.len();
    ranges
        .iter()
        .enumerate()
        .map(|(i, &(s, e))| compress_block(&data[s..e], i, i + 1 == n).unwrap())
        .collect()
}

#[test]
fn hello_world_is_one_finished_block() {
    let data = b"Hello, World!";
    assert_eq!(split_blocks(data.len(), 131072).unwrap(), vec![(0, 13)]);
    let out = compress(data, 131072).unwrap();
    assert_eq!(&out[..10], &GZIP_HEADER);
    let (crc, size) = trailer_fields(&out);
    assert_eq!(crc, 0xEC4AC3D0);
    assert_eq!(size, 13);
    assert_eq!(gunzip(&out, data.len()), data.to_vec());
}

#[test]
fn zeros_in_three_blocks() {
    let data = vec![0u8; 300000];
    let ranges = split_blocks(data.len(), 131072).unwrap();
    assert_eq!(ranges, vec![(0, 131072), (131072, 262144), (262144, 300000)]);
    let sizes: Vec<usize> = ranges.iter().map(|&(s, e)| e - s).collect();
    assert_eq!(sizes, vec![131072, 131072, 37856]);
    let out = compress(&data, 131072).unwrap();
    let (crc, size) = trailer_fields(&out);
    assert_eq!(crc, crc32fast::hash(&data));
    assert_eq!(size, 300000);
    assert_eq!(gunzip(&out, data.len()), data);
}

#[test]
fn round_trip_on_all_shapes() {
    let block_size = 4096;
    for len in [0usize, 1, 100, 4095, 4096, 4097, 3 * 4096, 3 * 4096 + 17, 50000] {
        let data = sample(len);
        let out = compress(&data, block_size).unwrap();
        assert_eq!(gunzip(&out, len), data, "length {}", len);
    }
}

#[test]
fn empty_input_is_one_empty_finished_block() {
    assert_eq!(split_blocks(0, 10).unwrap(), Vec::<(usize, usize)>::new());
    assert_eq!(block_plan(0, 10).unwrap(), vec![(0, 0)]);
    let out = compress(&[], 10).unwrap();
    let last = compress_block(&[], 0, true).unwrap();
    assert!(!last.payload.is_empty());
    assert_eq!(&out[..10], &GZIP_HEADER);
    assert_eq!(&out[10..out.len() - 8], last.payload.as_slice());
    assert_eq!(&out[out.len() - 8..], &[0u8; 8]);
    assert_eq!(gunzip(&out, 0), Vec::<u8>::new());
}

#[test]
fn block_plan_follows_the_segmenter() {
    assert_eq!(block_plan(10, 4).unwrap(), vec![(0, 4), (4, 8), (8, 10)]);
    assert_eq!(block_plan(8, 4).unwrap(), vec![(0, 4), (4, 8)]);
    assert_eq!(block_plan(3, 4).unwrap(), vec![(0, 3)]);
    assert_eq!(block_plan(5, 0), Err(CompressError::ZeroBlockSize));
    assert_eq!(block_plan(0, 0), Err(CompressError::ZeroBlockSize));
}

#[test]
fn combined_checksum_matches_one_pass() {
    for len in [1usize, 7, 1000, 8192, 10000, 65537] {
        let data = sample(len);
        for block_size in [1usize, 3, 512, 4096, 100000] {
            if len / block_size > 5000 {
                continue;
            }
            let out = compress(&data, block_size).unwrap();
            let (crc, size) = trailer_fields(&out);
            assert_eq!(crc, crc32fast::hash(&data), "len {} block {}", len, block_size);
            assert_eq!(size as usize, len);
        }
    }
}

#[test]
fn arrival_order_does_not_change_output() {
    let data = sample(20000);
    let expected = compress(&data, 1500).unwrap();
    let in_order = blocks_of(&data, 1500);
    let n = in_order.len();
    let orders: Vec<Vec<usize>> = vec![
        (0..n).rev().collect(),
        (0..n).map(|i| (i + 5) % n).collect(),
        (0..n).filter(|i| i % 2 == 1).chain((0..n).filter(|i| i % 2 == 0)).collect(),
        (0..n).map(|i| (i * 3) % n).collect(),
    ];
    for order in orders {
        let mut sorted = order.clone();
        sorted.sort();
        assert_eq!(sorted, (0..n).collect::<Vec<_>>());
        let shuffled: Vec<CompressedBlock> = order
            .iter()
            .map(|&i| {
                let b = &in_order[i];
                CompressedBlock {
                    index: b.index,
                    payload: b.payload.clone(),
                    checksum: b.checksum,
                    original_len: b.original_len,
                }
            })
            .collect();
        assert_eq!(reassemble(shuffled).unwrap(), expected);
    }
}

#[test]
fn size_field_wraps_modulo_two_to_the_32() {
    let mut r = Reassembler::new(2);
    let big = |index: usize, len: u64| CompressedBlock { index, payload: vec![index as u8], checksum: 0, original_len: len };
    assert_eq!(r.receive(big(1, 3_000_000_000)).unwrap(), Vec::<u8>::new());
    assert_eq!(r.receive(big(0, 2_000_000_000)).unwrap(), vec![0u8, 1u8]);
    let t = r.finish().unwrap();
    let size = u32::from_le_bytes([t[4], t[5], t[6], t[7]]);
    assert_eq!(size as u64, 5_000_000_000u64 % (1u64 << 32));
    assert_eq!(size, 705_032_704);
}

#[test]
fn short_input_is_a_single_finished_block() {
    let data = sample(1000);
    for block_size in [1000usize, 1001, 131072] {
        assert_eq!(split_blocks(data.len(), block_size).unwrap(), vec![(0, 1000)]);
        let out = compress(&data, block_size).unwrap();
        let last = compress_block(&data, 0, true).unwrap();
        assert_eq!(&out[10..out.len() - 8], last.payload.as_slice());
        assert_eq!(gunzip(&out, data.len()), data);
    }
}

#[test]
fn zero_block_size_is_refused() {
    assert_eq!(split_blocks(10, 0), Err(CompressError::ZeroBlockSize));
    assert_eq!(compress(b"abc", 0), Err(CompressError::ZeroBlockSize));
    assert_eq!(compress(&[], 0), Err(CompressError::ZeroBlockSize));
}

#[test]
fn trailer_folds_the_given_checksums_in_index_order() {
    let b = |index: usize, checksum: u32, original_len: u64| CompressedBlock { index, payload: vec![index as u8], checksum, original_len };
    let out = reassemble(vec![b(2, 0x2222_2222, 5), b(0, 0xDEAD_BEEF, 3), b(1, 0x1234_5678, 7)]).unwrap();
    let mut expected = crc32fast::Hasher::new_with_initial_len(0, 0);
    for (crc, len) in [(0xDEAD_BEEFu32, 3u64), (0x1234_5678, 7), (0x2222_2222, 5)] {
        expected.combine(&crc32fast::Hasher::new_with_initial_len(crc, len));
    }
    assert_eq!(&out[10..13], &[0, 1, 2]);
    let (crc, size) = trailer_fields(&out);
    assert_eq!(crc, expected.finalize());
    assert_eq!(size, 15);
}

#[test]
fn blocks_are_released_in_index_order() {
    let mut r = Reassembler::new(3);
    let b = |index: usize, byte: u8| CompressedBlock { index, payload: vec![byte, byte], checksum: 0, original_len: 1 };
    assert_eq!(r.receive(b(2, 7)).unwrap(), Vec::<u8>::new());
    assert_eq!(r.receive(b(1, 5)).unwrap(), Vec::<u8>::new());
    assert_eq!(r.finish(), Err(CompressError::Consistency));
    assert_eq!(r.receive(b(0, 3)).unwrap(), vec![3, 3, 5, 5, 7, 7]);
    assert!(r.finish().is_ok());
}

#[test]
fn duplicate_or_out_of_range_block_is_refused() {
    let mut r = Reassembler::new(2);
    let b = |index: usize| CompressedBlock { index, payload: vec![1], checksum: 0, original_len: 1 };
    assert_eq!(r.receive(b(2)), Err(CompressError::Consistency));
    assert_eq!(r.receive(b(1)).unwrap(), Vec::<u8>::new());
    assert_eq!(r.receive(b(1)), Err(CompressError::Consistency));
    assert_eq!(r.receive(b(0)).unwrap(), vec![1, 1]);
    assert_eq!(r.receive(b(0)), Err(CompressError::Consistency));
    assert!(r.finish().is_ok());
}

#[test]
fn reassemble_refuses_missing_or_repeated_blocks() {
    let data = sample(5000);
    let mut blocks = blocks_of(&data, 1000);
    let last = blocks.pop().unwrap();
    let copy = CompressedBlock { index: 0, payload: last.payload.clone(), checksum: 0, original_len: 1 };
    let gap: Vec<CompressedBlock> = blocks_of(&data, 1000).into_iter().filter(|b| b.index != 2).collect();
    assert_eq!(reassemble(gap), Err(CompressError::Consistency));
    blocks.push(copy);
    assert_eq!(reassemble(blocks), Err(CompressError::Consistency));
}

#[test]
fn block_compression_deflates_and_checksums() {
    let data = vec![0u8; 10000];
    let mid = compress_block(&data, 4, false).unwrap();
    assert_eq!(mid.index, 4);
    assert_eq!(mid.original_len, 10000);
    assert_eq!(mid.checksum, crc32fast::hash(&data));
    assert!(mid.payload.len() < 1000);
    let noise = sample(3000);
    let last = compress_block(&noise, 0, true).unwrap();
    assert!(last.payload.len() <= 3000 + (3000 + 7) / 8 + 9);
    assert_eq!(&mid.payload[mid.payload.len() - 4..], &[0, 0, 0xff, 0xff]);
    let hello = compress_block(b"Hello, World!", 0, true).unwrap();
    assert_eq!(hello.checksum, 0xEC4AC3D0);
    assert_ne!(hello.payload, b"Hello, World!".to_vec());
}

#[test]
fn flush_outcome_decides_success() {
    let err = Err(CompressError::Compression { index: 9 });
    assert_eq!(check_flush(9, true, 5, 20, (vec![1, 2], DeflateStatus::StreamEnd, 5)), Ok(vec![1, 2]));
    assert_eq!(check_flush(9, true, 5, 20, (vec![1, 2], DeflateStatus::Progress, 5)), err);
    assert_eq!(check_flush(9, true, 5, 20, (vec![1, 2], DeflateStatus::StreamEnd, 4)), err);
    assert_eq!(check_flush(9, false, 5, 20, (vec![1, 2], DeflateStatus::Progress, 5)), Ok(vec![1, 2]));
    assert_eq!(check_flush(9, false, 5, 2, (vec![1, 2], DeflateStatus::Progress, 5)), err);
    assert_eq!(check_flush(9, false, 5, 20, (vec![1, 2], DeflateStatus::NoProgress, 5)), err);
    assert_eq!(check_flush(9, false, 5, 20, (vec![1, 2], DeflateStatus::Failed, 5)), err);
}

#[test]
fn header_and_trailer_bytes() {
    assert_eq!(header(), GZIP_HEADER.to_vec());
    assert_eq!(trailer(0xEC4AC3D0, 13), vec![0xD0, 0xC3, 0x4A, 0xEC, 13, 0, 0, 0]);
    let mut v = vec![9u8];
    push_le32(&mut v, 0x01020304);
    assert_eq!(v, vec![9, 4, 3, 2, 1]);
}
