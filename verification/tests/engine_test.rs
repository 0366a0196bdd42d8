use nextar::compress::{compress, decompress, CompressError};
use nextar::crypto::{block_aad, Crypto, CryptoError};
use nextar::format::{BlockEntry, CODE_LZMA2, CODE_STORE, CODE_ZSTD};
use nextar::pipeline::{
    check_block_header, check_payload, decode_block, process_chunk, segment_parity, write_block, BlockError,
    BlockOrderer, StoredBlock, WriterStep,
};

fn sample(n: usize) -> Vec<u8> {
    (0..n).map(|i| (i % 7) as u8).collect()
}

#[test]
fn compress_round_trips_for_every_codec() {
    let data = sample(10_000);
    for codec in [CODE_STORE, CODE_ZSTD, CODE_LZMA2] {
        let c = compress(codec, 3, &data).unwrap();
        if codec != CODE_STORE {
            assert!(c.len() < data.len());
        } else {
            assert_eq!(c, data);
        }
        assert_eq!(decompress(codec, &c, data.len()).unwrap(), data);
    }
    assert!(compress(CODE_ZSTD, 3, &[]).unwrap().is_empty());
    assert!(decompress(CODE_ZSTD, &[], 0).unwrap().is_empty());
}

#[test]
fn compress_errors() {
    assert!(matches!(compress(9, 0, b"abc"), Err(CompressError::UnknownCodec(9))));
    assert!(matches!(decompress(9, b"abc", 3), Err(CompressError::UnknownCodec(9))));
    assert!(matches!(decompress(CODE_ZSTD, b"not zstd", 100), Err(CompressError::ZstdDecompress)));
    assert!(matches!(decompress(CODE_LZMA2, b"not xz", 100), Err(CompressError::Lzma2Decompress)));
}

#[test]
fn encrypted_blocks_round_trip_and_detect_tampering() {
    let salt = [3u8; 16];
    let c = Crypto::derive("hunter2", &salt).unwrap();
    let plain = b"quick brown fox".to_vec();
    let ct = c.encrypt_block(&salt, 5, CODE_ZSTD, &plain).unwrap();
    assert_eq!(ct.len(), plain.len() + 16);
    assert_eq!(c.decrypt_block(&salt, 5, CODE_ZSTD, &ct).unwrap(), plain);
    // another block id, codec or a flipped bit fails authentication
    assert!(matches!(c.decrypt_block(&salt, 6, CODE_ZSTD, &ct), Err(CryptoError::DecryptFailed)));
    assert!(matches!(c.decrypt_block(&salt, 5, CODE_LZMA2, &ct), Err(CryptoError::DecryptFailed)));
    let mut bad = ct.clone();
    bad[0] ^= 1;
    assert!(matches!(c.decrypt_block(&salt, 5, CODE_ZSTD, &bad), Err(CryptoError::DecryptFailed)));
    // the verifier accepts its own keys only
    let v = c.password_verifier().unwrap();
    assert_eq!(v.len(), 48);
    assert!(c.check_verifier(&v));
    let mut w = v.clone();
    w[3] ^= 0x80;
    assert!(!c.check_verifier(&w));
}

#[test]
fn empty_password_is_refused() {
    assert!(matches!(Crypto::derive("", &[0u8; 16]), Err(CryptoError::EmptyPassword)));
}

#[test]
fn nonce_and_aad_layout() {
    let aad = block_aad(0x0102, 7);
    assert_eq!(aad, [0x02, 0x01, 0, 0, 0, 0, 0, 0, 7]);
    let n1 = Crypto::block_nonce(&[1u8; 16], 0);
    let n2 = Crypto::block_nonce(&[1u8; 16], 1);
    assert_eq!(n1.len(), 24);
    assert_ne!(n1, n2);
}

#[test]
fn chunk_round_trip_through_the_pipeline() {
    let data = sample(5000);
    let b = process_chunk(CODE_ZSTD, 3, None, &[0u8; 16], 4, data.clone()).unwrap();
    assert_eq!(b.block_id, 4);
    assert_eq!(b.codec, CODE_ZSTD);
    assert_eq!(b.orig_len, 5000);
    assert!(!b.encrypted);
    assert_eq!(b.crc, crc32fast::hash(&b.payload));
    let (rec, be) = write_block(&b);
    assert_eq!(rec.len(), 28 + b.payload.len());
    assert!(check_block_header(&rec[..28], &be));
    assert!(check_payload(&rec[28..], &be));
    assert_eq!(decode_block(None, &[0u8; 16], &be, &rec[28..]).unwrap(), data);
}

#[test]
fn incompressible_chunks_are_stored_raw() {
    // pseudo-random bytes do not shrink
    let mut x: u32 = 12345;
    let data: Vec<u8> = (0..4096)
        .map(|_| {
            x = x.wrapping_mul(1103515245).wrapping_add(12345);
            (x >> 16) as u8
        })
        .collect();
    let b = process_chunk(CODE_ZSTD, 3, None, &[0u8; 16], 0, data.clone()).unwrap();
    assert_eq!(b.codec, CODE_STORE);
    assert_eq!(b.payload, data);
}

#[test]
fn encrypted_chunk_round_trip() {
    let salt = [9u8; 16];
    let c = Crypto::derive("secret", &salt).unwrap();
    let data = sample(3000);
    let b = process_chunk(CODE_LZMA2, 6, Some(&c), &salt, 11, data.clone()).unwrap();
    assert!(b.encrypted);
    let (rec, be) = write_block(&b);
    assert_eq!(rec[4], 1, "encrypted flag in the block header");
    assert_eq!(decode_block(Some(&c), &salt, &be, &rec[28..]).unwrap(), data);
    assert!(matches!(decode_block(None, &salt, &be, &rec[28..]), Err(BlockError::Compress(_))));
}

#[test]
fn header_check_rejects_mismatches() {
    let b = process_chunk(CODE_STORE, 0, None, &[0u8; 16], 2, b"abc".to_vec()).unwrap();
    let (rec, be) = write_block(&b);
    let other = BlockEntry { id: 3, ..be };
    assert!(!check_block_header(&rec[..28], &other));
    let shorter = BlockEntry { stored_len: 2, ..be };
    assert!(!check_block_header(&rec[..28], &shorter));
    assert!(!check_block_header(&rec[..27], &be));
    let wrong_crc = BlockEntry { crc: be.crc ^ 1, ..be };
    assert!(!check_payload(&rec[28..], &wrong_crc));
}

fn block(id: u64) -> StoredBlock {
    StoredBlock { block_id: id, codec: CODE_STORE, orig_len: 1, payload: vec![id as u8], crc: 0, encrypted: false }
}

fn step_ids(steps: &[WriterStep]) -> Vec<u64> {
    let mut v = Vec::new();
    for s in steps {
        match s {
            WriterStep::Block(b) => v.push(b.block_id),
            WriterStep::Segment(seg) => v.extend(seg.iter().map(|b| b.block_id)),
        }
    }
    v
}

#[test]
fn orderer_writes_blocks_in_id_order() {
    let mut o = BlockOrderer::new(0, false);
    let mut written = Vec::new();
    for id in [2u64, 0, 3, 1, 4] {
        written.extend(step_ids(&o.accept(block(id))));
    }
    assert_eq!(written, vec![0, 1, 2, 3, 4]);
    assert!(matches!(o.finish(), Ok(None)));
}

#[test]
fn orderer_groups_segments_and_reports_gaps() {
    let mut o = BlockOrderer::new(2, true);
    let s1 = o.accept(block(1));
    assert!(s1.is_empty());
    let s0 = o.accept(block(0));
    assert_eq!(s0.len(), 1);
    assert!(matches!(&s0[0], WriterStep::Segment(v) if v.len() == 2));
    let s2 = o.accept(block(2));
    assert!(s2.is_empty());
    match o.finish() {
        Ok(Some(last)) => assert_eq!(last.iter().map(|b| b.block_id).collect::<Vec<_>>(), vec![2]),
        _ => panic!("expected a short final segment"),
    }
    let mut gap = BlockOrderer::new(0, false);
    gap.accept(block(1));
    assert!(matches!(gap.finish(), Err(1)));
}

#[test]
fn segment_parity_of_written_blocks() {
    let blocks: Vec<StoredBlock> = (4..6).map(block).collect();
    let sp = segment_parity(&blocks, 2, 1).unwrap();
    assert_eq!(sp.seg_id, 2);
    assert_eq!(sp.data_count, 2);
    assert_eq!(sp.shard_size, 1);
    assert_eq!(sp.parity.len(), 1);
    assert!(segment_parity(&blocks, 1, 1).is_err());
}

#[test]
fn orderer_hands_out_the_blocks_it_received() {
    let mut o = BlockOrderer::new(0, false);
    let mk = |id: u64, byte: u8| StoredBlock { block_id: id, codec: CODE_STORE, orig_len: 1, payload: vec![byte], crc: 7, encrypted: false };
    assert!(o.accept(mk(1, 0xB1)).is_empty());
    // a second block for a waiting id replaces the first
    assert!(o.accept(mk(1, 0xB2)).is_empty());
    let steps = o.accept(mk(0, 0xA0));
    let payloads: Vec<u8> = steps
        .iter()
        .map(|s| match s {
            WriterStep::Block(b) => b.payload[0],
            WriterStep::Segment(_) => panic!("no segments without recovery"),
        })
        .collect();
    assert_eq!(payloads, vec![0xA0, 0xB2]);
    // a block for an id already written is not taken
    assert!(o.accept(mk(0, 0xEE)).is_empty());
    assert!(matches!(o.finish(), Err(1)));
}

#[test]
fn encrypted_incompressible_chunk_grows_only_by_the_tag() {
    let mut x: u32 = 777;
    let noise: Vec<u8> = (0..4096)
        .map(|_| {
            x = x.wrapping_mul(1_103_515_245).wrapping_add(12_345);
            (x >> 16) as u8
        })
        .collect();
    let c = Crypto::derive("pw", &[1u8; 16]).unwrap();
    let e = process_chunk(CODE_ZSTD, 3, Some(&c), &[1u8; 16], 5, noise.clone()).unwrap();
    assert_eq!(e.codec, CODE_STORE);
    assert_eq!(e.payload.len(), noise.len() + 16);
}

use nextar::pipeline::BlockIds;

#[test]
fn block_ids_run_in_order_across_files() {
    let mut ids = BlockIds::new();
    assert_eq!(ids.assign(), 0);
    assert_eq!(ids.assign(), 1);
    ids.end_file();
    ids.end_file();
    assert_eq!(ids.assign(), 2);
    ids.end_file();
    assert_eq!(ids.next_id(), 3);
    let (lists, produced) = ids.finish();
    assert_eq!(lists, vec![vec![0, 1], vec![], vec![2]]);
    assert_eq!(produced, 3);
}

#[test]
fn orderer_emits_up_to_the_first_gap() {
    let mut o = BlockOrderer::new(0, false);
    assert!(o.accept(block(2)).is_empty());
    assert_eq!(step_ids(&o.accept(block(0))), vec![0]);
    assert_eq!(step_ids(&o.accept(block(1))), vec![1, 2]);
    assert!(matches!(o.finish(), Ok(None)));
}

#[test]
fn payload_crc_is_crc32_ieee() {
    let be = BlockEntry { id: 0, codec: CODE_STORE, orig_len: 9, stored_len: 9, crc: 0xCBF4_3926 };
    assert!(check_payload(b"123456789", &be));
    assert!(!check_payload(b"123456780", &be));
}
