//! What every scan backend emits: options, live progress, the final
//! statistics and the event stream's items. The backends' threads and
//! channels run in the application.

use vstd::prelude::*;

use core::time::Duration;

use crate::entry::EntryBatch;
use crate::ntfs::assemble::AssembleStats;
use crate::ntfs::pipeline::ChunkCounts;
use crate::tree::NodeId;

verus! {

/// What to scan and how.
#[derive(Clone, Debug)]
pub struct ScanOptions {
    pub root: String,
    /// Worker threads. Defaults to available parallelism.
    pub threads: Option<usize>,
    /// Max entries per emitted batch (a directory's children are split
    /// across batches if larger).
    pub batch_size: usize,
}

impl ScanOptions {
    /// A scan of `root` with the default thread count and batches of 4096.
    pub fn new(root: &str) -> (r: ScanOptions)
        ensures
            r.root@ == root@,
            r.threads is None,
            r.batch_size == 4096,
    {
        ScanOptions { root: root.to_owned(), threads: None, batch_size: 4096 }
    }
}

/// Running totals for a live UI.
#[derive(Clone, Copy, Debug, Default)]
pub struct ScanProgress {
    pub files: u64,
    pub dirs: u64,
    pub bytes: u64,
}

impl ScanProgress {
    /// Adds one parsed chunk's counts (saturating).
    pub fn absorb(&mut self, counts: &ChunkCounts)
        ensures
            final(self).files == crate::ntfs::assemble::capped((old(self).files + counts.files) as nat),
            final(self).dirs == crate::ntfs::assemble::capped((old(self).dirs + counts.dirs) as nat),
            final(self).bytes == crate::ntfs::assemble::capped((old(self).bytes + counts.bytes) as nat),
    {
        self.files = self.files.saturating_add(counts.files);
        self.dirs = self.dirs.saturating_add(counts.dirs);
        self.bytes = self.bytes.saturating_add(counts.bytes);
    }
}

/// A finished scan's totals.
#[derive(Clone, Copy, Debug, Default)]
pub struct ScanStats {
    pub files: u64,
    pub dirs: u64,
    pub bytes: u64,
    /// Directories that could not be read.
    pub errors: u64,
    pub elapsed: Duration,
    pub cancelled: bool,
}

/// The totals of an MFT scan: the assembly's counts, with torn records,
/// dropped extension patches and orphans as errors (saturating), cancelled
/// when the assembly was or the scan was told to stop.
pub fn mft_scan_stats(assembled: &AssembleStats, torn: u64, dropped_patches: u64, stop: bool, elapsed: Duration) -> (s: ScanStats)
    ensures
        s.files == assembled.files,
        s.dirs == assembled.dirs,
        s.bytes == assembled.bytes,
        s.errors == crate::ntfs::assemble::capped((torn + dropped_patches + assembled.orphans) as nat),
        s.elapsed == elapsed,
        s.cancelled == (assembled.cancelled || stop),
{
    ScanStats {
        files: assembled.files,
        dirs: assembled.dirs,
        bytes: assembled.bytes,
        errors: torn.saturating_add(dropped_patches).saturating_add(assembled.orphans),
        elapsed,
        cancelled: assembled.cancelled || stop,
    }
}

/// What a scan emits, in order; `Done` always comes last.
#[derive(Debug)]
pub enum ScanEvent {
    Batch(EntryBatch),
    /// Directory `id` could not be read; its children will never arrive.
    DirError { id: NodeId, message: String },
    /// Periodic (~100ms) totals for live UI.
    Progress(ScanProgress),
    /// Always the final event, even when cancelled or failed.
    Done(ScanStats),
}

} // verus!
