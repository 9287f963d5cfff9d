use mathom::ntfs::ParseError;
use mathom::ntfs::boot::{Chunk, Geometry, mft_map, parse_boot_sector, plan_mft_read, read_chunks, usable_geometry};
use mathom::ntfs::runs::Extent;

/// A boot sector for a volume shaped like a typical desktop C: drive.
fn typical_boot() -> [u8; 512] {
    let mut b = [0u8; 512];
    b[3..11].copy_from_slice(b"NTFS    ");
    b[11..13].copy_from_slice(&512u16.to_le_bytes()); // bytes/sector
    b[13] = 8; // sectors/cluster → 4 KiB clusters
    b[0x28..0x30].copy_from_slice(&500_000_000u64.to_le_bytes()); // total sectors
    b[0x30..0x38].copy_from_slice(&786_432u64.to_le_bytes()); // $MFT LCN
    b[0x40] = 0xF6; // -10 → 2^10 = 1 KiB records
    b[510] = 0x55;
    b[511] = 0xAA;
    b
}

#[test]
fn parses_typical_volume() {
    let g = parse_boot_sector(&typical_boot()).unwrap();
    assert_eq!(g.bytes_per_sector, 512);
    assert_eq!(g.cluster_size, 4096);
    assert_eq!(g.record_size, 1024);
    assert_eq!(g.mft_lcn, 786_432);
    assert_eq!(g.mft_byte_offset(), 786_432 * 4096);
}

#[test]
fn parses_4kn_volume() {
    let mut b = typical_boot();
    b[11..13].copy_from_slice(&4096u16.to_le_bytes());
    b[13] = 1; // 4 KiB clusters
    b[0x40] = 0xF4; // -12 → 4 KiB records
    let g = parse_boot_sector(&b).unwrap();
    assert_eq!(g.cluster_size, 4096);
    assert_eq!(g.record_size, 4096);
}

#[test]
fn parses_large_cluster_exponent_encoding() {
    let mut b = typical_boot();
    b[13] = 0xF9; // -7 → 2^7 = 128 sectors → 64 KiB clusters
    let g = parse_boot_sector(&b).unwrap();
    assert_eq!(g.cluster_size, 64 * 1024);
}

#[test]
fn record_size_as_positive_cluster_count() {
    let mut b = typical_boot();
    b[0x40] = 1; // one 4 KiB cluster per record
    let g = parse_boot_sector(&b).unwrap();
    assert_eq!(g.record_size, 4096);
}

#[test]
fn rejects_non_ntfs_oem_id() {
    let mut b = typical_boot();
    b[3..11].copy_from_slice(b"MSDOS5.0");
    assert_eq!(
        parse_boot_sector(&b),
        Err(ParseError("not an NTFS volume (OEM id)"))
    );
}

#[test]
fn rejects_missing_signature() {
    let mut b = typical_boot();
    b[511] = 0;
    assert!(parse_boot_sector(&b).is_err());
}

#[test]
fn rejects_short_input_and_zero_mft_lcn() {
    assert!(parse_boot_sector(&[0u8; 100]).is_err());
    let mut b = typical_boot();
    b[0x30..0x38].copy_from_slice(&0u64.to_le_bytes());
    assert_eq!(
        parse_boot_sector(&b),
        Err(ParseError("$MFT cluster out of range"))
    );
}

#[test]
fn rejects_non_power_of_two_geometry() {
    let mut b = typical_boot();
    b[13] = 3; // 1536-byte clusters
    assert!(parse_boot_sector(&b).is_err());
}

/// The volume `typical_boot` describes: 62.5M clusters × 4 KiB.
fn typical_geometry() -> (Geometry, u64) {
    let g = parse_boot_sector(&typical_boot()).unwrap();
    let device_bytes = g.total_clusters * g.cluster_size as u64;
    (g, device_bytes)
}

#[test]
fn plan_accepts_a_typical_mft() {
    let (g, dev) = typical_geometry();
    // One 2.5 GiB extent; $DATA real size a bit under the allocation.
    let extents = [Extent {
        lcn: 786_432,
        clusters: 655_360,
    }];
    let plan = plan_mft_read(&g, &extents, 2_600_000_000, dev).unwrap();
    assert_eq!(plan.mft_bytes, 2_600_000_000);
    assert_eq!(plan.total_records, 2_539_062); // 2.6e9 / 1024, floored
}

#[test]
fn plan_with_unknown_data_size_reads_all_covered_clusters() {
    let (g, dev) = typical_geometry();
    let extents = [Extent {
        lcn: 786_432,
        clusters: 1_000,
    }];
    let plan = plan_mft_read(&g, &extents, u64::MAX, dev).unwrap();
    assert_eq!(plan.mft_bytes, 1_000 * 4096);
    assert_eq!(plan.total_records, 4_000);
}

#[test]
fn plan_rejects_boot_sector_bigger_than_device() {
    let (g, dev) = typical_geometry();
    let extents = [Extent {
        lcn: 786_432,
        clusters: 1_000,
    }];
    assert_eq!(
        plan_mft_read(&g, &extents, u64::MAX, dev - 1),
        Err(ParseError("boot sector claims more space than the device"))
    );
}

#[test]
fn plan_rejects_extent_beyond_the_volume() {
    let (g, dev) = typical_geometry();
    let extents = [Extent {
        lcn: g.total_clusters - 10,
        clusters: 100,
    }];
    assert_eq!(
        plan_mft_read(&g, &extents, u64::MAX, dev),
        Err(ParseError("$MFT extent beyond the volume end"))
    );
}

#[test]
fn plan_rejects_overlapping_extents_covering_more_than_the_volume() {
    let (g, dev) = typical_geometry();
    // Each extent is individually in-bounds; together they claim more
    // clusters than the volume has.
    let half = Extent {
        lcn: 0,
        clusters: g.total_clusters / 2 + 1,
    };
    assert_eq!(
        plan_mft_read(&g, &[half, half], u64::MAX, dev),
        Err(ParseError("$MFT extents cover more than the volume"))
    );
}

#[test]
fn plan_rejects_an_empty_extent_map() {
    let (g, dev) = typical_geometry();
    assert_eq!(
        plan_mft_read(&g, &[], u64::MAX, dev),
        Err(ParseError("$MFT extent map is empty"))
    );
}

#[test]
fn plan_rejects_record_count_beyond_u32() {
    // A (real, huge) device whose forged record 0 claims a 4 TiB $MFT:
    // 2^32 × 1 KiB records is one past the u32 record-number space.
    let g = Geometry {
        bytes_per_sector: 512,
        cluster_size: 4096,
        record_size: 1024,
        mft_lcn: 16,
        total_clusters: (1 << 30) + 16,
    };
    let extents = [Extent {
        lcn: 16,
        clusters: 1 << 30, // × 4 KiB = 2^42 bytes = 2^32 records
    }];
    assert_eq!(
        plan_mft_read(&g, &extents, u64::MAX, u64::MAX / 2),
        Err(ParseError("implausible $MFT record count"))
    );
}

#[test]
fn read_chunks_cut_extents_into_record_aligned_reads() {
    let extents = [Extent { lcn: 100, clusters: 2 }, Extent { lcn: 500, clusters: 3 }];
    let chunks = read_chunks(&extents, 4096, 1024, 17, 8192);
    assert_eq!(
        chunks,
        vec![
            Chunk { first_record: 0, disk_offset: 409_600, bytes: 8192 },
            Chunk { first_record: 8, disk_offset: 2_048_000, bytes: 8192 },
            Chunk { first_record: 16, disk_offset: 2_056_192, bytes: 1024 },
        ]
    );
    let all = read_chunks(&extents, 4096, 1024, 100, 8192);
    assert_eq!(all.len(), 3);
    assert_eq!(all[2], Chunk { first_record: 16, disk_offset: 2_056_192, bytes: 4096 });
    assert!(read_chunks(&extents, 4096, 1024, 0, 8192).is_empty());
}

#[test]
fn usable_geometry_wants_whole_records_per_cluster() {
    let mut s = typical_boot();
    // 4 KiB clusters hold 1 KiB records.
    assert!(usable_geometry(&s, 1 << 40).is_ok());
    assert_eq!(
        usable_geometry(&s, 1 << 12).unwrap_err(),
        ParseError("boot sector claims more space than the device")
    );
    // 512-byte clusters cannot hold a 1 KiB record.
    s[0x0D] = 1;
    assert_eq!(
        usable_geometry(&s, 1 << 40).unwrap_err(),
        ParseError("unsupported geometry: cluster smaller than FILE record")
    );
}

#[test]
fn mft_map_carries_the_plan_beside_the_layout() {
    let (g, dev) = typical_geometry();
    let extents = vec![Extent { lcn: 786_432, clusters: 1_000 }, Extent { lcn: 10, clusters: 24 }];
    let m = mft_map(g, extents.clone(), u64::MAX, dev).unwrap();
    assert_eq!(m.geometry, g);
    assert_eq!(m.extents, extents);
    assert_eq!(m.mft_bytes, 1_024 * 4096);
    assert_eq!(m.total_records, 4_096);
}

#[test]
fn mft_map_passes_the_plan_refusal_on() {
    let (g, dev) = typical_geometry();
    let extents = vec![Extent { lcn: g.total_clusters - 10, clusters: 100 }];
    assert_eq!(
        mft_map(g, extents, u64::MAX, dev).err(),
        Some(ParseError("$MFT extent beyond the volume end"))
    );
}
