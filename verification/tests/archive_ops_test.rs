use nextar::archive::{
    check_create, check_password, common_root_dir, entry_action, file_contents, files_for_extract, find_file,
    is_safe_path, path_le_exec, repair_archive, repair_segment, sort_inputs, stored_name, summarize,
    verify_block, verify_blocks, volume_path_for, ArchiveError, CreateCheckError, EntryAction, ExtractStats,
    ReadError, RepairError,
};
use nextar::crypto::Crypto;
use nextar::format::{hex, index_to_bytes, ArchiveHeader, BlockEntry, FileEntry, Index, CODE_STORE, CODE_ZSTD};
use nextar::pipeline::{assemble_index, create_header, level_byte, process_chunk, write_block, CreateError, CreateOptions, InputFile, StoredBlock};
use nextar::recovery::{block_offsets, block_table_end, encode_segment, read_volume_bytes, validate_pair, PairError, VolumeWriter};

fn entry(path: &str, kind: &str, size: u64, blocks: Vec<u64>) -> FileEntry {
    FileEntry {
        path: path.to_string(),
        kind: kind.to_string(),
        mode: 0o644,
        size,
        mtime: 0,
        mtime_ns: 0,
        link: None,
        blocks,
    }
}

fn index_with(files: Vec<FileEntry>, blocks: Vec<BlockEntry>, verifier_hex: Option<String>) -> Index {
    Index {
        created_by: "nextar 0.1.0".to_string(),
        created_at: 0,
        encrypted: verifier_hex.is_some(),
        codec: "zstd".to_string(),
        level: 3,
        block_size: 1 << 20,
        segment_size: 0,
        parity: 0,
        salt_hex: None,
        verifier_hex,
        files,
        blocks,
    }
}

fn opts(parity: usize, segment_size: usize, password: Option<&str>) -> CreateOptions {
    CreateOptions {
        codec: CODE_ZSTD,
        level: 3,
        block_size: 4096,
        password: password.map(|p| p.to_string()),
        threads: 2,
        segment_size,
        parity,
        quiet: true,
    }
}

#[test]
fn right_password_opens_wrong_one_is_reported() {
    let salt = [5u8; 16];
    let header = ArchiveHeader::with_salt(CODE_ZSTD, 3, 1 << 20, 0, 0, true, salt);
    let c = Crypto::derive("hunter2", &salt).unwrap();
    let vh = hex(&c.password_verifier().unwrap());
    let index = index_with(Vec::new(), Vec::new(), Some(vh));
    assert!(matches!(check_password(&header, &index, Some("hunter2")), Ok(Some(_))));
    assert!(matches!(check_password(&header, &index, Some("wrong")), Err(ArchiveError::WrongPassword)));
    assert!(matches!(check_password(&header, &index, None), Err(ArchiveError::PasswordRequired)));
    let plain = ArchiveHeader::with_salt(CODE_ZSTD, 3, 1 << 20, 0, 0, false, salt);
    assert!(matches!(check_password(&plain, &index, None), Ok(None)));
}

#[test]
fn unreadable_verifier_is_reported() {
    let salt = [1u8; 16];
    let header = ArchiveHeader::with_salt(CODE_ZSTD, 3, 1 << 20, 0, 0, true, salt);
    let index = index_with(Vec::new(), Vec::new(), Some("xyz".to_string()));
    assert!(matches!(check_password(&header, &index, Some("pw")), Err(ArchiveError::Hex(_))));
}

#[test]
fn common_root_and_extract_here() {
    let files = vec![entry("src", "dir", 0, vec![]), entry("src/a.txt", "file", 3, vec![0]), entry("src/sub/b", "file", 1, vec![1])];
    assert_eq!(common_root_dir(&files), Some("src".to_string()));
    let out = files_for_extract(&files, true);
    let paths: Vec<&str> = out.iter().map(|f| f.path.as_str()).collect();
    assert_eq!(paths, vec!["a.txt", "sub/b"]);
    let kept = files_for_extract(&files, false);
    assert_eq!(kept.len(), 3);
    assert_eq!(kept[1].path, "src/a.txt");
    // a single loose file is not a folder to strip
    assert_eq!(common_root_dir(&[entry("only.txt", "file", 1, vec![0])]), None);
    assert_eq!(common_root_dir(&[entry("a/x", "file", 1, vec![]), entry("b/y", "file", 1, vec![])]), None);
    assert_eq!(common_root_dir(&[]), None);
}

#[test]
fn unsafe_paths_are_refused() {
    assert!(is_safe_path("a/b/c.txt"));
    assert!(is_safe_path("a/..b/c"));
    assert!(!is_safe_path("../etc/passwd"));
    assert!(!is_safe_path("a/../../x"));
    assert!(!is_safe_path("/abs/path"));
    assert!(!is_safe_path(".."));
}

#[test]
fn volume_path_appends_nvol() {
    assert_eq!(volume_path_for("dir/backup.next"), "dir/backup.next.nvol");
}

#[test]
fn summary_counts_kinds_and_sizes() {
    let files = vec![
        entry("d", "dir", 0, vec![]),
        entry("d/a", "file", 10, vec![0]),
        entry("d/b", "file", 5, vec![1]),
        entry("d/l", "symlink", 0, vec![]),
    ];
    let blocks = vec![
        BlockEntry { id: 0, codec: CODE_STORE, orig_len: 10, stored_len: 10, crc: 0 },
        BlockEntry { id: 1, codec: CODE_STORE, orig_len: 5, stored_len: 5, crc: 0 },
    ];
    let s = summarize(&index_with(files, blocks, None));
    assert_eq!((s.files, s.dirs, s.symlinks, s.data_blocks, s.logical_size), (2, 1, 1, 2, 15));
}

#[test]
fn inputs_are_sorted_by_stored_path() {
    let mk = |p: &str| InputFile { entry: entry(p, "file", 0, vec![]), local: format!("/tmp/{p}") };
    let v = vec![mk("b/z"), mk("a"), mk("b"), mk("B"), mk("a/b"), mk("é")];
    let sorted = sort_inputs(v);
    let paths: Vec<String> = sorted.iter().map(|i| i.entry.path.clone()).collect();
    let mut expected: Vec<String> = ["b/z", "a", "b", "B", "a/b", "é"].iter().map(|s| s.to_string()).collect();
    expected.sort();
    assert_eq!(paths, expected);
    assert!(path_le_exec("a", "a/b"));
    assert!(!path_le_exec("b", "a"));
    assert!(path_le_exec("", ""));
    assert_eq!(stored_name("photos", "2024\\jan\\x.jpg"), "photos/2024/jan/x.jpg");
}

#[test]
fn create_requests_are_checked() {
    let mut o = opts(0, 128, None);
    assert!(matches!(check_create(0, &mut o, "x.next"), Err(CreateCheckError::NoInputs)));
    assert!(matches!(check_create(1, &mut o, "x.next"), Ok(None)));
    let mut r = opts(8, 128, None);
    assert_eq!(check_create(1, &mut r, "x.next").unwrap(), Some("x.next.nvol".to_string()));
    let mut too_many = opts(200, 128, None);
    assert!(matches!(
        check_create(1, &mut too_many, "x.next"),
        Err(CreateCheckError::TooManyShards { segment_size: 128, parity: 200 })
    ));
    let mut auto = opts(0, 128, None);
    auto.threads = 0;
    check_create(1, &mut auto, "x.next").unwrap();
    assert!(auto.threads >= 1);
}

#[test]
fn new_archive_header_and_index() {
    assert_eq!(level_byte(-4), 0);
    assert_eq!(level_byte(300), 255);
    assert_eq!(level_byte(19), 19);
    let o = opts(2, 4, None);
    let h = create_header(&o);
    assert_eq!((h.codec, h.level, h.block_size, h.segment_size, h.parity), (CODE_ZSTD, 3, 4096, 4, 2));
    assert!(h.recovery() && !h.encrypted());
    let entries = vec![entry("a", "file", 3, vec![]), entry("b", "dir", 0, vec![])];
    let table = vec![BlockEntry { id: 0, codec: CODE_ZSTD, orig_len: 3, stored_len: 3, crc: 1 }];
    let ix = assemble_index(&o, &h.salt, None, "nextar 0.1.0".to_string(), 42, entries.clone(), vec![vec![0], vec![]], table.clone(), 1).unwrap();
    assert_eq!(ix.codec, "zstd");
    assert_eq!(ix.created_at, 42);
    assert_eq!(ix.files[0].blocks, vec![0]);
    assert!(ix.files[1].blocks.is_empty());
    assert!(ix.salt_hex.is_none() && ix.verifier_hex.is_none() && !ix.encrypted);
    assert!(matches!(
        assemble_index(&o, &h.salt, None, String::new(), 0, entries, vec![], table, 2),
        Err(CreateError::Inconsistent { produced: 2, written: 1 })
    ));
}

#[test]
fn encrypted_index_carries_salt_and_verifier() {
    let o = opts(0, 0, Some("pw"));
    let h = create_header(&o);
    let c = Crypto::derive("pw", &h.salt).unwrap();
    let ix = assemble_index(&o, &h.salt, Some(&c), String::new(), 0, vec![], vec![], vec![], 0).unwrap();
    assert!(ix.encrypted);
    assert_eq!(ix.salt_hex, Some(hex(&h.salt)));
    // the archive's own password opens it
    assert!(matches!(check_password(&h, &ix, Some("pw")), Ok(Some(_))));
}

fn stored(ids: std::ops::Range<u64>, len: usize) -> Vec<StoredBlock> {
    ids.map(|id| {
        let data: Vec<u8> = (0..len).map(|i| ((i as u64 * 31 + id * 7) % 251) as u8).collect();
        process_chunk(CODE_ZSTD, 3, None, &[0u8; 16], id, data).unwrap()
    })
    .collect()
}

#[test]
fn repair_rebuilds_lost_blocks_from_the_volume() {
    let k = 2usize;
    let m = 1usize;
    let blocks = stored(0..5, 3000);
    let mut records = Vec::new();
    let mut table = Vec::new();
    for b in &blocks {
        let (rec, be) = write_block(b);
        records.extend_from_slice(&rec);
        table.push(be);
    }
    let header = ArchiveHeader::with_salt(CODE_ZSTD, 3, 4096, k as u16, m as u16, false, [0u8; 16]);
    let index_bytes = index_to_bytes(b"{}");
    // the recovery volume
    let (mut w, mut vol) = VolumeWriter::create(k, m).unwrap();
    vol.extend(w.set_header(&header));
    for (s, seg) in blocks.chunks(k).enumerate() {
        let payloads: Vec<Vec<u8>> = seg.iter().map(|b| b.payload.clone()).collect();
        let mut sp = encode_segment(k, m, &payloads).unwrap();
        sp.seg_id = s as u32;
        vol.extend(w.add_segment(&sp));
    }
    w.set_index(&index_bytes);
    let (trailer, off, patch) = w.finish().unwrap();
    vol.extend(trailer);
    vol[off as usize..off as usize + 4].copy_from_slice(&patch);
    let volume = read_volume_bytes(&vol).unwrap();
    assert_eq!((volume.k, volume.m, volume.segments.len()), (2, 1, 3));
    assert!(validate_pair(&header, &volume).is_ok());
    // one block lost in each segment
    let lanes: Vec<Option<Vec<u8>>> =
        blocks.iter().enumerate().map(|(i, b)| if i % 2 == 0 { None } else { Some(b.payload.clone()) }).collect();
    let (out, stats) = repair_archive(&header, &table, &index_bytes, &volume, lanes).unwrap();
    assert_eq!(stats.total_blocks, 5);
    assert_eq!(stats.repaired, 3);
    assert_eq!(stats.out_size, out.len() as u64);
    assert_eq!(&out[60..60 + records.len()], &records[..]);
    assert_eq!(&out[60 + records.len()..], &index_bytes[..]);
    let h2 = ArchiveHeader::from_bytes(&out[..60]).unwrap();
    assert_eq!(h2.index_offset, 60 + records.len() as u64);
    assert_eq!(h2.index_len, index_bytes.len() as u64);
    // byte for byte the archive that create lays out
    let mut created = header;
    created.index_offset = 60 + records.len() as u64;
    created.index_len = index_bytes.len() as u64;
    let mut expected = created.to_bytes();
    expected.extend_from_slice(&records);
    expected.extend_from_slice(&index_bytes);
    assert_eq!(out, expected);
    // the reader finds every block where it was written
    let offs = block_offsets(&table);
    assert_eq!(block_table_end(&table), Some(60 + records.len() as u64));
    for (i, be) in table.iter().enumerate() {
        let o = offs[i] as usize;
        assert!(nextar::pipeline::check_block_header(&out[o..o + 28], be));
    }
}

#[test]
fn repair_fails_cleanly_when_too_much_is_lost() {
    let blocks = stored(0..2, 500);
    let table: Vec<BlockEntry> = blocks.iter().map(|b| write_block(b).1).collect();
    let payloads: Vec<Vec<u8>> = blocks.iter().map(|b| b.payload.clone()).collect();
    let sp = encode_segment(2, 1, &payloads).unwrap();
    let r = repair_segment(2, 1, 0, &table, vec![None, None], &sp, false);
    assert!(matches!(r, Err(RepairError::Recovery(_))));
    let short = repair_segment(2, 1, 3, &table[..1], vec![None], &sp, false);
    assert!(matches!(short, Err(RepairError::DataCountMismatch { seg: 3 })));
}

#[test]
fn volume_and_archive_must_match() {
    let header = ArchiveHeader::with_salt(CODE_ZSTD, 3, 4096, 4, 2, false, [0u8; 16]);
    let (mut w, mut vol) = VolumeWriter::create(4, 1).unwrap();
    vol.extend(w.set_header(&header));
    w.set_index(&[]);
    let (trailer, _, _) = w.finish().unwrap();
    vol.extend(trailer);
    let volume = read_volume_bytes(&vol).unwrap();
    assert!(matches!(validate_pair(&header, &volume), Err(PairError::ParityMismatch { volume: 1, archive: 2 })));
}

#[test]
fn verify_counts_good_and_bad_blocks() {
    let blocks = stored(0..3, 100);
    let table: Vec<BlockEntry> = blocks.iter().map(|b| write_block(b).1).collect();
    let mut bad = blocks[1].payload.clone();
    bad[0] ^= 0xFF;
    let payloads = vec![Some(blocks[0].payload.clone()), Some(bad), None];
    let (st, failing) = verify_blocks(None, &[0u8; 16], false, &table, &payloads);
    assert_eq!((st.total, st.good, st.bad), (3, 1, 2));
    assert_eq!(failing, vec![1, 2]);
    assert!(verify_block(None, &[0u8; 16], false, &table[0], Some(&blocks[0].payload)));
    assert!(!verify_block(None, &[0u8; 16], false, &table[0], None));
}

#[test]
fn a_file_reads_back_as_its_chunks() {
    let data: Vec<u8> = (0..10_000u32).map(|i| (i % 13) as u8).collect();
    let chunks: Vec<&[u8]> = data.chunks(4096).collect();
    let blocks: Vec<StoredBlock> =
        chunks.iter().enumerate().map(|(i, c)| process_chunk(CODE_ZSTD, 3, None, &[0u8; 16], i as u64, c.to_vec()).unwrap()).collect();
    let table: Vec<BlockEntry> = blocks.iter().map(|b| write_block(b).1).collect();
    let files = vec![entry("d", "dir", 0, vec![]), entry("d/f.bin", "file", data.len() as u64, vec![0, 1, 2])];
    let i = find_file(&files, "d/f.bin").unwrap();
    assert_eq!(i, 1);
    assert!(matches!(find_file(&files, "d"), Err(ReadError::NotAFile)));
    assert!(matches!(find_file(&files, "nope.txt"), Err(ReadError::NoEntry)));
    let payloads: Vec<Option<Vec<u8>>> = blocks.iter().map(|b| Some(b.payload.clone())).collect();
    let out = file_contents(None, &[0u8; 16], &table, &files[i].blocks, &payloads).unwrap();
    assert_eq!(out, data);
    let mut missing = payloads.clone();
    missing[1] = None;
    assert!(matches!(file_contents(None, &[0u8; 16], &table, &files[i].blocks, &missing), Err(ReadError::CorruptBlock(1))));
}

#[test]
fn extraction_tally_and_actions() {
    let mut st = ExtractStats::new();
    st.tally("file", 10);
    st.tally("dir", 0);
    st.tally("symlink", 0);
    st.tally("file", 5);
    assert_eq!((st.files, st.dirs, st.symlinks, st.bytes), (2, 1, 1, 15));
    assert_eq!(entry_action("dir"), Some(EntryAction::MakeDir));
    assert_eq!(entry_action("symlink"), Some(EntryAction::MakeSymlink));
    assert_eq!(entry_action("file"), Some(EntryAction::WriteFile));
    assert_eq!(entry_action("fifo"), None);
}

use nextar::archive::{block_totals, tree_row};

#[test]
fn inspect_rows_and_ratio_inputs() {
    assert_eq!(tree_row("docs/sub/readme.md"), (2, "readme.md".to_string()));
    assert_eq!(tree_row("top"), (0, "top".to_string()));
    assert_eq!(tree_row("a/"), (1, String::new()));
    let b = |id: u64, o: u32, s: u32| BlockEntry { id, codec: CODE_ZSTD, orig_len: o, stored_len: s, crc: 0 };
    assert_eq!(block_totals(&[b(0, 100, 40), b(1, 50, 50), b(2, u32::MAX, u32::MAX)]), (150 + u32::MAX as u64, 90 + u32::MAX as u64));
    assert_eq!(block_totals(&[]), (0, 0));
}

#[test]
fn sort_keeps_inputs_with_one_stored_path_in_order() {
    let mk = |p: &str, l: &str| InputFile { entry: entry(p, "file", 0, vec![]), local: l.to_string() };
    let v = vec![mk("x", "/one/x"), mk("a", "/a"), mk("x", "/two/x"), mk("x", "/three/x")];
    let sorted = sort_inputs(v);
    let locals: Vec<&str> = sorted.iter().map(|i| i.local.as_str()).collect();
    assert_eq!(locals, vec!["/a", "/one/x", "/two/x", "/three/x"]);
}

use nextar::archive::{restores_readonly, windows_mode};

#[test]
fn windows_modes_map_the_read_only_attribute() {
    assert_eq!(windows_mode(true, true), 0o755);
    assert_eq!(windows_mode(false, true), 0o444);
    assert_eq!(windows_mode(false, false), 0o644);
    assert!(restores_readonly(0o444));
    assert!(restores_readonly(0o555));
    assert!(!restores_readonly(0o644));
    assert!(!restores_readonly(0o400 | 0o020));
}

use nextar::archive::check_create_with;

#[test]
fn thread_count_zero_takes_the_cpu_count() {
    let mut auto = opts(0, 128, None);
    auto.threads = 0;
    assert!(matches!(check_create_with(1, &mut auto, "x.next", 12), Ok(None)));
    assert_eq!(auto.threads, 12);
    let mut fixed = opts(0, 128, None);
    check_create_with(1, &mut fixed, "x.next", 12).unwrap();
    assert_eq!(fixed.threads, 2);
    let mut none = opts(0, 128, None);
    none.threads = 0;
    assert!(check_create_with(0, &mut none, "x.next", 12).is_err());
    assert_eq!(none.threads, 0);
}

use nextar::archive::verify_key;

#[test]
fn verify_needs_no_password_for_crc_checks() {
    let o = opts(0, 128, Some("pw"));
    let header = create_header(&o);
    let index = Index {
        created_by: "t".to_string(),
        created_at: 0,
        encrypted: true,
        codec: "zstd".to_string(),
        level: 3,
        block_size: 4096,
        segment_size: 0,
        parity: 0,
        salt_hex: None,
        verifier_hex: None,
        files: vec![],
        blocks: vec![],
    };
    assert!(matches!(verify_key(&header, &index, None), Ok(None)));
    assert!(matches!(check_password(&header, &index, None), Err(ArchiveError::PasswordRequired)));
}

#[test]
fn no_recovery_records_no_segment_size() {
    let plain = create_header(&opts(0, 128, None));
    assert_eq!((plain.segment_size, plain.parity), (0, 0));
    assert!(!plain.recovery());
    let rs = create_header(&opts(8, 128, None));
    assert_eq!((rs.segment_size, rs.parity), (128, 8));
}

#[test]
fn empty_password_never_opens_an_archive() {
    let header = create_header(&opts(0, 128, Some("pw")));
    let index = Index {
        created_by: "t".to_string(),
        created_at: 0,
        encrypted: true,
        codec: "zstd".to_string(),
        level: 3,
        block_size: 4096,
        segment_size: 0,
        parity: 0,
        salt_hex: None,
        verifier_hex: None,
        files: vec![],
        blocks: vec![],
    };
    assert!(matches!(check_password(&header, &index, Some("")), Err(ArchiveError::Crypto(_))));
    assert!(matches!(verify_key(&header, &index, Some("")), Err(ArchiveError::Crypto(_))));
    let mut auto = opts(0, 128, None);
    auto.threads = 0;
    check_create(1, &mut auto, "x.next").unwrap();
    assert!(auto.threads >= 1);
}

#[test]
fn volume_reads_back_what_the_writer_wrote() {
    let mut header = ArchiveHeader::with_salt(CODE_ZSTD, 5, 8192, 3, 2, true, [9u8; 16]);
    header.index_offset = 1234;
    header.index_len = 56;
    let (mut w, mut vol) = VolumeWriter::create(3, 2).unwrap();
    vol.extend(w.set_header(&header));
    let mut written = Vec::new();
    for (id, len) in [(7u32, 10usize), (3u32, 33usize)] {
        let payloads: Vec<Vec<u8>> = (0..3u8).map(|i| vec![i + id as u8; len - i as usize]).collect();
        let mut sp = encode_segment(3, 2, &payloads).unwrap();
        sp.seg_id = id;
        vol.extend(w.add_segment(&sp));
        written.push(sp);
    }
    let index_bytes = b"index copy".to_vec();
    w.set_index(&index_bytes);
    let (trailer, off, patch) = w.finish().unwrap();
    vol.extend(trailer);
    vol[off as usize..off as usize + 4].copy_from_slice(&patch);
    let v = read_volume_bytes(&vol).unwrap();
    assert_eq!((v.k, v.m), (3, 2));
    let h = v.archive_header;
    assert_eq!((h.flags, h.codec, h.level, h.block_size), (header.flags, CODE_ZSTD, 5, 8192));
    assert_eq!((h.segment_size, h.parity, h.salt), (3, 2, [9u8; 16]));
    assert_eq!((h.index_offset, h.index_len), (1234, 56));
    let mut keys: Vec<u32> = v.segments.keys().copied().collect();
    keys.sort();
    assert_eq!(keys, vec![3, 7]);
    for sp in &written {
        let got = &v.segments[&sp.seg_id];
        assert_eq!((got.data_count, got.shard_size), (sp.data_count, sp.shard_size));
        assert_eq!(got.parity, sp.parity);
    }
    assert_eq!(v.index_copy, Some(index_bytes));
}
