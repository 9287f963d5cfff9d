use mathom::ntfs::ParseError;
use mathom::ntfs::runs::{Extent, decode_runs, extents_from_retrieval};

#[test]
fn decodes_single_run() {
    // The canonical documented example: header 0x21 = 1-byte length,
    // 2-byte offset → 0x18 clusters at LCN 0x5634.
    let runs = decode_runs(&[0x21, 0x18, 0x34, 0x56, 0x00]).unwrap();
    assert_eq!(
        runs,
        vec![Extent {
            lcn: 0x5634,
            clusters: 0x18
        }]
    );
}

#[test]
fn decodes_multiple_runs_with_negative_delta() {
    // Run 1: 0x30 clusters at LCN 0x120. Run 2: 0x10 clusters at delta -1.
    let data = [0x21, 0x30, 0x20, 0x01, 0x11, 0x10, 0xFF, 0x00];
    let runs = decode_runs(&data).unwrap();
    assert_eq!(
        runs,
        vec![
            Extent {
                lcn: 0x120,
                clusters: 0x30
            },
            Extent {
                lcn: 0x11F,
                clusters: 0x10
            },
        ]
    );
}

#[test]
fn decodes_wide_fields() {
    // 4-byte length, 3-byte offset.
    let mut data = vec![0x34];
    data.extend_from_slice(&0x0012_3456u32.to_le_bytes());
    data.extend_from_slice(&0x654321u32.to_le_bytes()[..3]);
    data.push(0x00);
    let runs = decode_runs(&data).unwrap();
    assert_eq!(
        runs,
        vec![Extent {
            lcn: 0x654321,
            clusters: 0x0012_3456
        }]
    );
}

#[test]
fn rejects_sparse_run() {
    // Header 0x01: 1-byte length, no offset field = sparse.
    assert_eq!(
        decode_runs(&[0x01, 0x10, 0x00]),
        Err(ParseError("sparse run in a run list that must be dense"))
    );
}

#[test]
fn rejects_truncated_and_unterminated_input() {
    assert!(decode_runs(&[0x21, 0x56]).is_err()); // fields cut off
    assert!(decode_runs(&[0x11, 0x10, 0x34]).is_err()); // no terminator
}

#[test]
fn rejects_run_before_volume_start() {
    // First delta is negative: LCN would be -2.
    assert!(decode_runs(&[0x11, 0x10, 0xFE, 0x00]).is_err());
}

#[test]
fn empty_input_is_an_error() {
    assert!(decode_runs(&[]).is_err());
}

#[test]
fn retrieval_pairs_become_extents() {
    let es = extents_from_retrieval(0, &vec![(16, 100), (48, 7), (50, 9000)]).expect("dense map");
    let got: Vec<(u64, u64)> = es.iter().map(|e| (e.lcn, e.clusters)).collect();
    assert_eq!(got, [(100, 16), (7, 32), (9000, 2)]);
    assert!(extents_from_retrieval(5, &Vec::new()).expect("empty map").is_empty());
}

#[test]
fn retrieval_pairs_refuse_virtual_and_backward_extents() {
    let sparse = extents_from_retrieval(0, &vec![(16, 100), (32, -1)]);
    assert_eq!(sparse.err().map(|e| e.0), Some("unexpected virtual extent in $MFT"));
    let backward = extents_from_retrieval(10, &vec![(10, 4)]);
    assert_eq!(backward.err().map(|e| e.0), Some("unexpected virtual extent in $MFT"));
}

#[test]
fn retrieval_pairs_span_the_whole_signed_range() {
    let es = extents_from_retrieval(i64::MIN, &vec![(i64::MAX, 1)]).expect("one huge extent");
    assert_eq!(es[0].clusters, u64::MAX);
}
