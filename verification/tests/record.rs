use mathom::entry::EntryFlags;
use mathom::ntfs::fixture::RecordBuilder;
use mathom::ntfs::record::{
    NS_DOS, RecordFacts, filetime_to_unix, parse_record, parse_record0, reparse_entry_flags,
};
use mathom::ntfs::{ParseError, u16_at};
const FT_2020: u64 = 132_223_104_000_000_000; // 2020-01-01T00:00:00Z
const UNIX_2020: i64 = 1_577_836_800;

fn parse_one(builder: RecordBuilder) -> (Option<RecordFacts>, String) {
    let mut arena = String::new();
    let mut bytes = builder.build(30, 1024);
    let facts = parse_record(&mut bytes, &mut arena).expect("record should parse");
    (facts, arena)
}

fn name_of<'a>(facts: &RecordFacts, arena: &'a str) -> &'a str {
    let n = facts.name.expect("record should have a name");
    &arena[n.off as usize..(n.off + n.len as u32) as usize]
}

#[test]
fn parses_minimal_file_record() {
    let (facts, arena) = parse_one(
        RecordBuilder::file()
            .seq(7)
            .std_info(0, FT_2020)
            .name(5, 5, 1, "report.txt")
            .data_nonresident(120_000, 122_880),
    );
    let f = facts.unwrap();
    assert_eq!(name_of(&f, &arena), "report.txt");
    assert_eq!(f.name.unwrap().parent.number(), 5);
    assert_eq!(f.name.unwrap().parent.sequence(), 5);
    assert_eq!(f.seq, 7);
    assert_eq!(f.base, 0);
    assert!(!f.is_dir);
    assert_eq!(f.logical, 120_000);
    assert_eq!(f.alloc, 122_880);
    assert_eq!(f.mtime, UNIX_2020);
    assert_eq!(f.link_names, 1);
}

#[test]
fn parses_directory_record() {
    let (facts, _) = parse_one(
        RecordBuilder::dir()
            .std_info(0, FT_2020)
            .name(5, 5, 3, "src"),
    );
    assert!(facts.unwrap().is_dir);
}

#[test]
fn free_record_is_skipped_not_an_error() {
    let (facts, _) = parse_one(RecordBuilder::free());
    assert!(facts.is_none());
}

#[test]
fn zeroed_and_garbage_buffers_are_skipped() {
    let mut arena = String::new();
    let mut zeroed = vec![0u8; 1024];
    assert!(parse_record(&mut zeroed, &mut arena).unwrap().is_none());
    let mut garbage = vec![0xABu8; 1024];
    assert!(parse_record(&mut garbage, &mut arena).unwrap().is_none());
}

#[test]
fn torn_record_is_an_error() {
    let mut bytes = RecordBuilder::file()
        .std_info(0, FT_2020)
        .name(5, 5, 1, "torn.bin")
        .build(30, 1024);
    // Corrupt the protected last word of the second sector — as if the
    // second half of the record came from an older write.
    bytes[1022] ^= 0xFF;
    let mut arena = String::new();
    assert_eq!(
        parse_record(&mut bytes, &mut arena),
        Err(ParseError("torn record (fixup mismatch)"))
    );
}

#[test]
fn fixup_restores_protected_words() {
    // A resident value that spans the first sector boundary: bytes at the
    // sector end travel through the fixup array and must come back intact.
    let payload: Vec<u8> = (0..=255).cycle().take(700).map(|b| b as u8).collect();
    let mut bytes = RecordBuilder::file()
        .name(5, 5, 1, "spans.bin")
        .data_resident_bytes(&payload)
        .build(30, 1024);
    let mut arena = String::new();
    let facts = parse_record(&mut bytes, &mut arena).unwrap().unwrap();
    assert_eq!(facts.logical, 700);
    // The parser saw the *restored* bytes; verify directly too.
    let start = bytes.windows(700).any(|w| w == payload);
    assert!(start, "payload should be restored verbatim after fixups");
}

#[test]
fn resident_data_reports_zero_allocated() {
    let (facts, _) = parse_one(
        RecordBuilder::file()
            .name(5, 5, 1, "tiny.ini")
            .data_resident_bytes(&[1, 2, 3, 4, 5]),
    );
    let f = facts.unwrap();
    assert_eq!(f.logical, 5);
    assert_eq!(f.alloc, 0);
}

#[test]
fn compressed_data_uses_total_allocated_and_flags() {
    let (facts, _) = parse_one(
        RecordBuilder::file()
            .name(5, 5, 1, "log.txt")
            .data_nonresident_compressed(1_000_000, 1_048_576, 65_536),
    );
    let f = facts.unwrap();
    assert_eq!(f.logical, 1_000_000);
    assert_eq!(f.alloc, 65_536, "allocated must be the backed bytes");
    assert!(f.flags.contains(EntryFlags::compressed()));
}

#[test]
fn sparse_data_sets_sparse_flag() {
    let (facts, _) = parse_one(
        RecordBuilder::file()
            .name(5, 5, 1, "sparse.dat")
            .data_nonresident_sparse(10_000_000, 4096),
    );
    let f = facts.unwrap();
    assert_eq!(f.logical, 10_000_000);
    assert_eq!(f.alloc, 4096);
    assert!(f.flags.contains(EntryFlags::sparse()));
}

#[test]
fn named_streams_add_allocated_but_not_logical() {
    // The WOF/CompactOS shape: sparse main stream ≈ 0 backed bytes, real
    // data in the WofCompressedData ADS. Σ-streams prices it correctly.
    let (facts, _) = parse_one(
        RecordBuilder::file()
            .name(5, 5, 1, "system.dll")
            .data_nonresident_sparse(500_000, 0)
            .named_data_nonresident("WofCompressedData", 180_000, 184_320)
            .reparse(0x8000_0017), // IO_REPARSE_TAG_WOF
    );
    let f = facts.unwrap();
    assert_eq!(f.logical, 500_000, "logical comes from the main stream");
    assert_eq!(f.alloc, 184_320, "allocated sums all streams");
    assert!(reparse_entry_flags(f.reparse_tag).contains(EntryFlags::compressed()));
    assert!(!reparse_entry_flags(f.reparse_tag).contains(EntryFlags::reparse()));
}

#[test]
fn continuation_fragment_contributes_nothing() {
    let (facts, _) = parse_one(
        RecordBuilder::file()
            .name(5, 5, 1, "frag.bin")
            .data_nonresident(4096, 4096)
            .data_continuation(64),
    );
    let f = facts.unwrap();
    assert_eq!(f.logical, 4096);
    assert_eq!(f.alloc, 4096);
}

#[test]
fn dos_name_loses_to_win32_name_regardless_of_order() {
    let (facts, arena) = parse_one(RecordBuilder::file().name(5, 5, NS_DOS, "PROGRA~1").name(
        5,
        5,
        1,
        "Program Files",
    ));
    let f = facts.unwrap();
    assert_eq!(name_of(&f, &arena), "Program Files");
    assert_eq!(f.link_names, 1, "the DOS alias is not a hardlink");
}

#[test]
fn dos_only_name_is_still_used() {
    let (facts, arena) = parse_one(RecordBuilder::file().name(5, 5, NS_DOS, "LEGACY~1.TXT"));
    let f = facts.unwrap();
    assert_eq!(name_of(&f, &arena), "LEGACY~1.TXT");
    assert_eq!(f.link_names, 0);
}

#[test]
fn hardlinks_keep_first_win32_name_and_count_links() {
    let (facts, arena) = parse_one(RecordBuilder::file().name(5, 5, 1, "first-link.dll").name(
        9,
        2,
        1,
        "second-link.dll",
    ));
    let f = facts.unwrap();
    assert_eq!(name_of(&f, &arena), "first-link.dll");
    assert_eq!(f.name.unwrap().parent.number(), 5);
    assert_eq!(f.link_names, 2);
}

#[test]
fn unicode_names_survive_utf16_conversion() {
    let (facts, arena) = parse_one(RecordBuilder::file().name(5, 5, 1, "日本語 🗾.txt"));
    assert_eq!(name_of(&facts.unwrap(), &arena), "日本語 🗾.txt");
}

#[test]
fn unpaired_surrogate_becomes_replacement_char() {
    let (facts, arena) = parse_one(RecordBuilder::file().name_utf16(
        5,
        5,
        1,
        &[0x0061, 0xD800, 0x0062], // "a", lone high surrogate, "b"
    ));
    assert_eq!(name_of(&facts.unwrap(), &arena), "a\u{FFFD}b");
}

#[test]
fn junction_and_symlink_tags_map_to_reparse_flag() {
    let (facts, _) = parse_one(
        RecordBuilder::dir()
            .name(5, 5, 3, "Documents and Settings")
            .reparse(0xA000_0003), // IO_REPARSE_TAG_MOUNT_POINT
    );
    let f = facts.unwrap();
    assert_eq!(f.reparse_tag, 0xA000_0003);
    assert!(reparse_entry_flags(f.reparse_tag).contains(EntryFlags::reparse()));
    assert!(reparse_entry_flags(0xA000_000C).contains(EntryFlags::reparse())); // symlink
}

#[test]
fn cloud_placeholder_tags_map_to_placeholder_flag() {
    assert!(reparse_entry_flags(0x9000_001A).contains(EntryFlags::placeholder()));
    assert!(reparse_entry_flags(0x9000_601A).contains(EntryFlags::placeholder()));
    assert!(!reparse_entry_flags(0x9000_601A).contains(EntryFlags::reparse()));
    assert!(!reparse_entry_flags(0xA000_0003).contains(EntryFlags::placeholder()));
}

#[test]
fn system_attribute_sets_system_flag() {
    let (facts, _) = parse_one(
        RecordBuilder::file()
            .std_info(0x6, FT_2020) // HIDDEN | SYSTEM
            .name(5, 5, 1, "pagefile.sys"),
    );
    assert!(facts.unwrap().flags.contains(EntryFlags::system()));
}

#[test]
fn extension_record_reports_its_base() {
    let (facts, _) = parse_one(
        RecordBuilder::file()
            .extension_of(42, 3)
            .data_nonresident(8192, 8192),
    );
    let f = facts.unwrap();
    assert_eq!(f.base, 42);
    assert_eq!(f.alloc, 8192);
}

#[test]
fn attribute_list_is_skipped_without_effect() {
    let (facts, arena) = parse_one(
        RecordBuilder::file()
            .attribute_list_stub()
            .name(5, 5, 1, "big.mkv")
            .data_nonresident(1 << 30, 1 << 30),
    );
    let f = facts.unwrap();
    assert_eq!(name_of(&f, &arena), "big.mkv");
    assert_eq!(f.logical, 1 << 30);
}

#[test]
fn corrupt_attribute_length_is_an_error_not_a_panic() {
    let mut bytes = RecordBuilder::file()
        .name(5, 5, 1, "x")
        .std_info(0, FT_2020)
        .build(30, 1024);
    let first_attr = u16_at(&bytes, 0x14) as usize;
    // Attribute length 0 would loop forever; unaligned/oversized walk off.
    for bad_len in [0u32, 7, 100_000] {
        let mut copy = bytes.clone();
        copy[first_attr + 4..first_attr + 8].copy_from_slice(&bad_len.to_le_bytes());
        let mut arena = String::new();
        assert!(
            parse_record(&mut copy, &mut arena).is_err(),
            "len {bad_len} must be rejected"
        );
    }
    // Also: first-attribute offset pointing past the record.
    bytes[0x14..0x16].copy_from_slice(&2000u16.to_le_bytes());
    let mut arena = String::new();
    assert!(parse_record(&mut bytes, &mut arena).is_err());
}

#[test]
fn pseudo_random_garbage_never_panics() {
    // Deterministic xorshift junk with a valid "FILE" magic + in-use flag
    // forced in, so the parser gets past the early outs and must survive
    // the fixup/attribute machinery on hostile bytes.
    let mut state = 0x9E37_79B9_7F4A_7C15u64;
    let mut arena = String::new();
    for _ in 0..2000 {
        let mut buf = vec![0u8; 1024];
        for b in buf.iter_mut() {
            state ^= state << 13;
            state ^= state >> 7;
            state ^= state << 17;
            *b = state as u8;
        }
        buf[0..4].copy_from_slice(b"FILE");
        buf[0x16] |= 0x1;
        let _ = parse_record(&mut buf, &mut arena); // any Ok/Err, no panic
    }
}

#[test]
fn record0_yields_mft_extents_and_size() {
    // Two runs: 0x100 clusters at LCN 0x400, then 0x80 at LCN 0x300.
    let runs = [0x22, 0x00, 0x01, 0x00, 0x04, 0x21, 0x80, 0x00, 0xFF, 0x00];
    let mut rec = RecordBuilder::file()
        .std_info(0x6, FT_2020)
        .name(5, 5, 3, "$MFT")
        .data_nonresident_with_runs(0x180 * 4096, 0x17F, &runs)
        .build(0, 1024);
    let m = parse_record0(&mut rec).unwrap();
    assert_eq!(m.data_size, 0x180 * 4096);
    assert_eq!(m.extents.len(), 2);
    assert_eq!(m.extents[0].lcn, 0x400);
    assert_eq!(m.extents[0].clusters, 0x100);
    assert_eq!(m.extents[1].lcn, 0x300);
    assert_eq!(m.extents[1].clusters, 0x80);
}

#[test]
fn record0_with_incomplete_runs_is_an_error() {
    // Runs cover 0x100 clusters but the VCN range claims 0x180.
    let runs = [0x22, 0x00, 0x01, 0x00, 0x04, 0x00];
    let mut rec = RecordBuilder::file()
        .name(5, 5, 3, "$MFT")
        .data_nonresident_with_runs(0x180 * 4096, 0x17F, &runs)
        .build(0, 1024);
    assert_eq!(
        parse_record0(&mut rec),
        Err(ParseError("$MFT runs incomplete in record 0"))
    );
}

#[test]
fn record0_rejects_free_or_dataless_records() {
    let mut free = RecordBuilder::free().build(0, 1024);
    assert!(parse_record0(&mut free).is_err());
    let mut no_data = RecordBuilder::file().name(5, 5, 3, "$MFT").build(0, 1024);
    assert!(parse_record0(&mut no_data).is_err());
}

#[test]
fn filetime_conversion_matches_known_values() {
    assert_eq!(filetime_to_unix(0), 0);
    assert_eq!(filetime_to_unix(116_444_736_000_000_000), 0); // 1970-01-01
    assert_eq!(filetime_to_unix(FT_2020), UNIX_2020);
    // Pre-1970 truncates toward zero (walker semantics).
    assert_eq!(filetime_to_unix(116_444_735_985_000_000), -1);
    assert_eq!(filetime_to_unix(116_444_736_015_000_000), 1);
}
