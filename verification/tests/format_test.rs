use nextar::format::{
    codec_from_name, codec_name, hex, index_from_bytes, index_to_bytes, unhex, ArchiveHeader, BlockHeader,
    FormatError, HexError, CODE_LZMA2, CODE_STORE, CODE_ZSTD, FLAG_ENCRYPTED, FLAG_RECOVERY, HEADER_LEN,
};

fn sample_header() -> ArchiveHeader {
    let mut h = ArchiveHeader::with_salt(CODE_ZSTD, 3, 1 << 20, 128, 8, true, [7u8; 16]);
    h.index_offset = 4096;
    h.index_len = 321;
    h
}

#[test]
fn header_round_trip_keeps_every_field() {
    let h = sample_header();
    let b = h.to_bytes();
    assert_eq!(b.len() as u64, HEADER_LEN);
    assert_eq!(&b[0..8], b"NEXTAR\x01\x00");
    let back = ArchiveHeader::from_bytes(&b).unwrap();
    assert_eq!(back.version, 1);
    assert_eq!(back.flags, FLAG_ENCRYPTED | FLAG_RECOVERY);
    assert_eq!(back.codec, CODE_ZSTD);
    assert_eq!(back.level, 3);
    assert_eq!(back.block_size, 1 << 20);
    assert_eq!(back.segment_size, 128);
    assert_eq!(back.parity, 8);
    assert_eq!(back.salt, [7u8; 16]);
    assert_eq!(back.index_offset, 4096);
    assert_eq!(back.index_len, 321);
    assert!(back.encrypted());
    assert!(back.recovery());
}

#[test]
fn header_flags_follow_the_choices() {
    let plain = ArchiveHeader::with_salt(CODE_STORE, 0, 512, 0, 0, false, [0u8; 16]);
    assert_eq!(plain.flags, 0);
    assert!(!plain.encrypted());
    assert!(!plain.recovery());
    let rec = ArchiveHeader::with_salt(CODE_STORE, 0, 512, 4, 2, false, [0u8; 16]);
    assert_eq!(rec.flags, FLAG_RECOVERY);
    let enc = ArchiveHeader::with_salt(CODE_STORE, 0, 512, 4, 0, true, [0u8; 16]);
    assert_eq!(enc.flags, FLAG_ENCRYPTED);
}

#[test]
fn header_errors() {
    let b = sample_header().to_bytes();
    assert!(matches!(ArchiveHeader::from_bytes(&b[..59]), Err(FormatError::HeaderTruncated)));
    let mut bad_magic = b.clone();
    bad_magic[0] = b'X';
    assert!(matches!(ArchiveHeader::from_bytes(&bad_magic), Err(FormatError::BadMagic)));
    let mut bad_crc = b.clone();
    bad_crc[20] ^= 0xFF;
    assert!(matches!(ArchiveHeader::from_bytes(&bad_crc), Err(FormatError::HeaderChecksum)));
}

#[test]
fn fresh_headers_get_random_salts() {
    let a = ArchiveHeader::new(CODE_ZSTD, 3, 1024, 0, 0, false);
    let b = ArchiveHeader::new(CODE_ZSTD, 3, 1024, 0, 0, false);
    assert_ne!(a.salt, b.salt);
    assert_eq!(a.index_offset, 0);
    assert_eq!(a.index_len, 0);
}

#[test]
fn block_header_round_trip() {
    let h = BlockHeader { flags: 1, codec: CODE_LZMA2, block_id: 0x0102_0304_0506_0708, orig_len: 9, stored_len: 10, crc: 0xDEAD_BEEF };
    let b = h.to_bytes();
    assert_eq!(b.len(), 28);
    assert_eq!(&b[0..4], &[0x4E, 0x42, 0x31, 0x01]);
    assert_eq!(&b[26..28], &[0, 0]);
    let back = BlockHeader::from_bytes(&b).unwrap();
    assert_eq!(back.flags, 1);
    assert_eq!(back.codec, CODE_LZMA2);
    assert_eq!(back.block_id, 0x0102_0304_0506_0708);
    assert_eq!(back.orig_len, 9);
    assert_eq!(back.stored_len, 10);
    assert_eq!(back.crc, 0xDEAD_BEEF);
    assert!(matches!(BlockHeader::from_bytes(&b[..27]), Err(FormatError::BlockTruncated)));
    let mut bad = b.clone();
    bad[1] = 0;
    assert!(matches!(BlockHeader::from_bytes(&bad), Err(FormatError::BadBlockMagic)));
}

#[test]
fn index_block_round_trip_and_errors() {
    let json = br#"{"files":[],"blocks":[]}"#;
    let framed = index_to_bytes(json);
    assert_eq!(framed.len(), 8 + 8 + json.len() + 4);
    assert_eq!(&framed[0..8], b"NIDX\x01\x00\x00\x00");
    assert_eq!(index_from_bytes(&framed).unwrap(), json.to_vec());
    assert!(matches!(index_from_bytes(&framed[..10]), Err(FormatError::IndexTruncated)));
    let mut bad_magic = framed.clone();
    bad_magic[0] = 0;
    assert!(matches!(index_from_bytes(&bad_magic), Err(FormatError::BadIndexMagic)));
    assert!(matches!(index_from_bytes(&framed[..framed.len() - 6]), Err(FormatError::IndexJsonTruncated)));
    let mut bad_crc = framed.clone();
    bad_crc[20] ^= 1;
    assert!(matches!(index_from_bytes(&bad_crc), Err(FormatError::IndexChecksum)));
}

#[test]
fn hex_round_trip_and_errors() {
    let data = [0x00u8, 0x0f, 0xa5, 0xff];
    let h = hex(&data);
    assert_eq!(h, "000fa5ff");
    assert_eq!(unhex(&h).unwrap(), data.to_vec());
    assert_eq!(unhex("A5Ff").unwrap(), vec![0xa5, 0xff]);
    assert!(matches!(unhex("abc"), Err(HexError::OddLength)));
    assert!(matches!(unhex("zz"), Err(HexError::InvalidDigit)));
    assert_eq!(unhex("").unwrap(), Vec::<u8>::new());
}

#[test]
fn codec_names_round_trip() {
    assert_eq!(codec_name(CODE_STORE), "store");
    assert_eq!(codec_name(CODE_ZSTD), "zstd");
    assert_eq!(codec_name(CODE_LZMA2), "lzma2");
    assert_eq!(codec_name(9), "unknown");
    for code in [CODE_STORE, CODE_ZSTD, CODE_LZMA2] {
        assert_eq!(codec_from_name(codec_name(code)).unwrap(), code);
    }
    assert_eq!(codec_from_name("ZStandard").unwrap(), CODE_ZSTD);
    assert_eq!(codec_from_name("XZ").unwrap(), CODE_LZMA2);
    assert_eq!(codec_from_name("none").unwrap(), CODE_STORE);
    assert_eq!(codec_from_name("Copy").unwrap(), CODE_STORE);
    let e = codec_from_name("Brotli").unwrap_err();
    assert_eq!(e.name, "brotli");
}

#[test]
fn unhex_then_hex_gives_lowercase() {
    let s = "DEADbeef0A";
    assert_eq!(nextar::format::hex(&nextar::format::unhex(s).unwrap()), s.to_ascii_lowercase());
}
