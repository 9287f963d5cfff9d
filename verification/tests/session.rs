use mathom::scanner::{ScanProgress, ScanStats};
use mathom::session::{Progress, ScanState, delete_block_reason, export_block_reason, snapshot};

#[test]
fn deletes_are_blocked_while_scanning() {
    assert!(delete_block_reason(ScanState::Scanning, "C:\\Users\\me\\big.iso", None).is_some());
}

#[test]
fn finished_scans_defer_to_path_policy() {
    assert!(delete_block_reason(ScanState::Done, "C:\\Users\\me\\big.iso", None).is_none());
    assert!(delete_block_reason(ScanState::Cancelled, "C:\\Users\\me\\big.iso", None).is_none());
    assert!(delete_block_reason(ScanState::Failed, "C:\\Users\\me\\big.iso", None).is_none());
    // Path policy still applies once the scan is over.
    assert!(delete_block_reason(ScanState::Done, "C:\\$Recycle.Bin", None).is_some());
}

#[test]
fn scanning_delete_refusal_names_the_way_out() {
    let m = delete_block_reason(ScanState::Scanning, "C:\\$Recycle.Bin", Some("C:\\Windows")).unwrap();
    assert_eq!(m, "can't delete while a scan is running — cancel it or wait for it to finish");
}

#[test]
fn exports_are_refused_only_while_scanning() {
    assert_eq!(
        export_block_reason(ScanState::Scanning).as_deref(),
        Some("can't export while a scan is running — wait for it to finish")
    );
    assert!(export_block_reason(ScanState::Idle).is_none());
    assert!(export_block_reason(ScanState::Done).is_none());
    assert!(export_block_reason(ScanState::Cancelled).is_none());
    assert!(export_block_reason(ScanState::Failed).is_none());
}

#[test]
fn default_scan_state_is_idle() {
    assert_eq!(ScanState::default(), ScanState::Idle);
}

#[test]
fn drain_events_move_the_session_to_its_end_state() {
    let mut p = Progress::default();
    p.state = ScanState::Scanning;
    p.progress(&ScanProgress { files: 3, dirs: 2, bytes: 40 });
    assert_eq!((p.files, p.dirs, p.bytes), (3, 2, 40));
    assert!(p.dir_error(7, false, "denied".to_string()), "a subdirectory gets marked");
    assert_eq!(p.errors, 1);
    assert!(p.root_error.is_none());
    let stats = ScanStats { files: 10, dirs: 4, bytes: 99, errors: 1, cancelled: true, ..ScanStats::default() };
    p.done(&stats, 1234);
    assert_eq!(p.state, ScanState::Cancelled);
    let s = snapshot(9, &p, 15, 5000);
    assert_eq!((s.generation, s.files, s.dirs, s.bytes, s.errors, s.elapsed_ms, s.nodes), (9, 10, 4, 99, 1, 1234, 15));

    let mut q = Progress::default();
    assert!(!q.dir_error(0, true, "gone".to_string()), "a dead root fails the scan");
    q.done(&ScanStats::default(), 10);
    assert_eq!(q.state, ScanState::Failed);
    assert_eq!(q.root_error.as_deref(), Some("gone"));

    let mut w = Progress::default();
    w.worker_lost(77);
    assert_eq!(w.state, ScanState::Failed);
    assert_eq!(w.errors, 1);
    assert_eq!(w.root_error.as_deref(), Some("the scan worker stopped without finishing"));
    let running = snapshot(1, &Progress::default(), 0, 42);
    assert_eq!(running.elapsed_ms, 42);
}
