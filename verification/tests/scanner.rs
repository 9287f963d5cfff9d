use mathom::ntfs::assemble::AssembleStats;
use mathom::ntfs::pipeline::ChunkCounts;
use mathom::scanner::{ScanOptions, ScanProgress, mft_scan_stats};
use std::time::Duration;

#[test]
fn scan_options_default_to_batches_of_4096() {
    let o = ScanOptions::new("C:\\data");
    assert_eq!(o.root, "C:\\data");
    assert_eq!(o.threads, None);
    assert_eq!(o.batch_size, 4096);
}

#[test]
fn progress_absorbs_chunk_counts_saturating() {
    let mut p = ScanProgress::default();
    p.absorb(&ChunkCounts { files: 2, dirs: 1, bytes: 100 });
    p.absorb(&ChunkCounts { files: 3, dirs: 0, bytes: u64::MAX });
    assert_eq!((p.files, p.dirs, p.bytes), (5, 1, u64::MAX));
}

#[test]
fn mft_stats_count_torn_dropped_and_orphans_as_errors() {
    let a = AssembleStats { files: 4, dirs: 2, bytes: 10, allocated: 20, orphans: 3, cancelled: false };
    let s = mft_scan_stats(&a, 1, 2, false, Duration::from_millis(5));
    assert_eq!((s.files, s.dirs, s.bytes, s.errors, s.cancelled), (4, 2, 10, 6, false));
    assert_eq!(s.elapsed, Duration::from_millis(5));
    assert!(mft_scan_stats(&a, 0, 0, true, Duration::ZERO).cancelled);
}
