//! A scan session's bookkeeping: its lifecycle state, the live counters
//! the UI polls, and the gates that refuse deletes and exports while the
//! tree is still growing.

use vstd::prelude::*;

use crate::protected::{block_reason, root_split_ok, spec_block_reason};
use crate::scanner::{ScanProgress, ScanStats};
use crate::text::push_str;

verus! {

/// Where a scan is in its life. Every state after `Scanning` is terminal.
#[derive(Clone, Copy, Debug, PartialEq, Eq, Structural)]
pub enum ScanState {
    Idle,
    Scanning,
    Done,
    Cancelled,
    Failed,
}

impl Default for ScanState {
    fn default() -> (r: Self)
        ensures
            r == ScanState::Idle,
    {
        ScanState::Idle
    }
}

/// The refusal a delete gets while the scan is still running.
pub open spec fn busy_delete_message() -> Seq<char> {
    "can't delete while a scan is running — cancel it or wait for it to finish"@
}

/// The refusal an export gets while the scan is still running.
pub open spec fn busy_export_message() -> Seq<char> {
    "can't export while a scan is running — wait for it to finish"@
}

/// Why deleting `path` must be refused right now, or `None` if it's
/// allowed. Mid-scan deletes are refused: removing a subtree vacates slots
/// that in-flight batches may still name as parents. Past that, the path
/// policy decides, given the Windows directory `system_root` when known.
pub fn delete_block_reason(scan_state: ScanState, path: &str, system_root: Option<&str>) -> (r: Option<String>)
    requires
        scan_state != ScanState::Scanning ==> root_split_ok(path@, match system_root {
            Some(s) => Some(s@),
            None => None,
        }),
    ensures
        scan_state == ScanState::Scanning ==> (r matches Some(m) && m@ == busy_delete_message()),
        scan_state != ScanState::Scanning ==> match spec_block_reason(path@, match system_root {
            Some(s) => Some(s@),
            None => None,
        }) {
            Some(m) => r matches Some(s) && s@ == m,
            None => r is None,
        },
{
    if scan_state == ScanState::Scanning {
        let mut m = String::new();
        push_str(&mut m, "can't delete while a scan is running — cancel it or wait for it to finish");
        return Some(m);
    }
    block_reason(path, system_root)
}

/// Why an export must be refused right now: it holds the tree for the
/// whole write, which would stall a running scan.
pub fn export_block_reason(scan_state: ScanState) -> (r: Option<String>)
    ensures
        scan_state == ScanState::Scanning ==> (r matches Some(m) && m@ == busy_export_message()),
        scan_state != ScanState::Scanning ==> r is None,
{
    if scan_state == ScanState::Scanning {
        let mut m = String::new();
        push_str(&mut m, "can't export while a scan is running — wait for it to finish");
        Some(m)
    } else {
        None
    }
}


/// The message a session fails with when its worker stops without a final
/// `Done`.
pub open spec fn worker_lost_message() -> Seq<char> {
    "the scan worker stopped without finishing"@
}

/// A running session's counters, as the scan's events update them.
#[derive(Clone, Debug, Default)]
pub struct Progress {
    pub state: ScanState,
    pub files: u64,
    pub dirs: u64,
    pub bytes: u64,
    pub errors: u64,
    pub root_error: Option<String>,
    pub finished_ms: Option<u64>,
}

pub open spec fn bump(x: u64) -> u64 {
    if x == u64::MAX { x } else { (x + 1) as u64 }
}

pub open spec fn same_text(a: Option<String>, b: Option<String>) -> bool {
    match (a, b) {
        (Some(x), Some(y)) => x@ == y@,
        (None, None) => true,
        _ => false,
    }
}

fn copy_text(a: &Option<String>) -> (r: Option<String>)
    ensures
        same_text(*a, r),
{
    match a {
        Some(m) => Some(m.clone()),
        None => None,
    }
}

impl Progress {
    /// Directory `id` could not be read. When it is the root and the tree
    /// is still empty, the scan failed before it began and `message`
    /// becomes the root error; otherwise the directory is to be marked in
    /// the tree (the result). Either way one more error is counted.
    pub fn dir_error(&mut self, id: u32, tree_empty: bool, message: String) -> (mark: bool)
        ensures
            final(self).errors == bump(old(self).errors),
            mark == !(id == 0 && tree_empty),
            !mark ==> final(self).root_error == Some(message),
            mark ==> final(self).root_error == old(self).root_error,
            final(self).state == old(self).state,
            final(self).files == old(self).files,
            final(self).dirs == old(self).dirs,
            final(self).bytes == old(self).bytes,
            final(self).finished_ms == old(self).finished_ms,
    {
        self.errors = self.errors.saturating_add(1);
        if id == 0 && tree_empty {
            self.root_error = Some(message);
            false
        } else {
            true
        }
    }

    /// Live totals from the scanner.
    pub fn progress(&mut self, pr: &ScanProgress)
        ensures
            final(self).files == pr.files,
            final(self).dirs == pr.dirs,
            final(self).bytes == pr.bytes,
            final(self).errors == old(self).errors,
            final(self).state == old(self).state,
            final(self).root_error == old(self).root_error,
            final(self).finished_ms == old(self).finished_ms,
    {
        self.files = pr.files;
        self.dirs = pr.dirs;
        self.bytes = pr.bytes;
    }

    /// The scan's final totals: the session ends failed when the root could
    /// not be read, cancelled when the scan was, done otherwise.
    pub fn done(&mut self, stats: &ScanStats, finished_ms: u64)
        ensures
            final(self).files == stats.files,
            final(self).dirs == stats.dirs,
            final(self).bytes == stats.bytes,
            final(self).errors == stats.errors,
            final(self).finished_ms == Some(finished_ms),
            final(self).root_error == old(self).root_error,
            final(self).state == (if old(self).root_error is Some {
                ScanState::Failed
            } else if stats.cancelled {
                ScanState::Cancelled
            } else {
                ScanState::Done
            }),
    {
        self.files = stats.files;
        self.dirs = stats.dirs;
        self.bytes = stats.bytes;
        self.errors = stats.errors;
        self.finished_ms = Some(finished_ms);
        self.state = if self.root_error.is_some() {
            ScanState::Failed
        } else if stats.cancelled {
            ScanState::Cancelled
        } else {
            ScanState::Done
        };
    }

    /// The event stream ended without `Done`: the worker died.
    pub fn worker_lost(&mut self, finished_ms: u64)
        ensures
            final(self).errors == bump(old(self).errors),
            final(self).root_error matches Some(m) && m@ == worker_lost_message(),
            final(self).finished_ms == Some(finished_ms),
            final(self).state == ScanState::Failed,
            final(self).files == old(self).files,
            final(self).dirs == old(self).dirs,
            final(self).bytes == old(self).bytes,
    {
        self.errors = self.errors.saturating_add(1);
        let mut m = String::new();
        push_str(&mut m, "the scan worker stopped without finishing");
        self.root_error = Some(m);
        self.finished_ms = Some(finished_ms);
        self.state = ScanState::Failed;
    }
}

/// What the UI is shown of a session.
#[derive(Clone, Debug)]
pub struct Snapshot {
    pub generation: u64,
    pub state: ScanState,
    pub files: u64,
    pub dirs: u64,
    pub bytes: u64,
    pub errors: u64,
    pub elapsed_ms: u64,
    pub nodes: usize,
    pub root_error: Option<String>,
}

/// The session's picture: its counters, the tree's slot count, and the
/// time to finish (or, while running, the time so far, `now_ms`).
pub fn snapshot(generation: u64, p: &Progress, nodes: usize, now_ms: u64) -> (s: Snapshot)
    ensures
        s.generation == generation,
        s.state == p.state,
        s.files == p.files,
        s.dirs == p.dirs,
        s.bytes == p.bytes,
        s.errors == p.errors,
        s.elapsed_ms == (match p.finished_ms {
            Some(f) => f,
            None => now_ms,
        }),
        s.nodes == nodes,
        same_text(p.root_error, s.root_error),
{
    Snapshot {
        generation,
        state: p.state,
        files: p.files,
        dirs: p.dirs,
        bytes: p.bytes,
        errors: p.errors,
        elapsed_ms: match p.finished_ms {
            Some(f) => f,
            None => now_ms,
        },
        nodes,
        root_error: copy_text(&p.root_error),
    }
}
} // verus!
