use hyprdrive::dedup::error::DeduplicateError;
use hyprdrive::dedup::reflink::{check_same_size, dedupe_status, differs_error, DedupeStatus};
use hyprdrive::indexer::error::FsIndexerError;
use hyprdrive::indexer::fallback::ParentTable;
use hyprdrive::indexer::linux::allocated_from_blocks;
use hyprdrive::indexer::mft::topo_entry_of;
use hyprdrive::indexer::types::FilesystemKind;
use hyprdrive::ipc::{
    error_response, plan_request, pong, scan_error_code, ErrorCode, HelperAction, HelperRequest,
    HelperResponse, WireCursor, PROTOCOL_VERSION,
};
use hyprdrive::pipeline::plan::{has_parent_row, object_kind, processing_order, size_column, tally_batch, wants_mime};
use hyprdrive::pipeline::PipelineConfig;
use hyprdrive::text::parse_usize;

#[test]
fn processing_order_parents_first_and_stable() {
    let is_dir = vec![false, true, false, true, false];
    let depths = vec![3, 1, 2, 2, 1];
    assert_eq!(processing_order(&is_dir, &depths, false), vec![1, 4, 2, 3, 0]);
    // Directories left out when configured so.
    assert_eq!(processing_order(&is_dir, &depths, true), vec![4, 2, 0]);
    assert!(processing_order(&[], &[], false).is_empty());
}

#[test]
fn batch_tally_counts() {
    let t = tally_batch(&[true, false, false, true], &[0, 0, 5, 9]);
    assert_eq!(t.directories, 2);
    assert_eq!(t.zero_byte, 1);
}

#[test]
fn row_columns() {
    assert!(!has_parent_row(5, 0));
    assert!(!has_parent_row(5, 5));
    assert!(has_parent_row(5, 4));
    assert_eq!(size_column(10), 10);
    assert_eq!(size_column(u64::MAX), i64::MAX);
    assert_eq!(object_kind(true), "Directory");
    assert_eq!(object_kind(false), "File");
    let c = PipelineConfig::new("v".to_string());
    assert!(wants_mime(&c, false));
    assert!(!wants_mime(&c, true));
}

#[test]
fn reflink_size_check_message() {
    assert!(matches!(check_same_size(7, 7), Ok(7)));
    match check_same_size(1, 22) {
        Err(DeduplicateError::HashError(m)) => {
            assert_eq!(m, "reflink dedup requires identical file sizes: source=1, dest=22")
        }
        other => panic!("unexpected {other:?}"),
    }
}

#[test]
fn dedupe_status_reading() {
    assert_eq!(dedupe_status(0), DedupeStatus::Same);
    assert_eq!(dedupe_status(1), DedupeStatus::Differs);
    assert_eq!(dedupe_status(-22), DedupeStatus::OsError(22));
    match differs_error() {
        DeduplicateError::HashError(m) => assert_eq!(m, "FIDEDUPERANGE: data differs (content mismatch)"),
        other => panic!("unexpected {other:?}"),
    }
}

#[test]
fn parse_usize_like_std() {
    let p = |s: &str| parse_usize(&s.chars().collect::<Vec<char>>());
    assert_eq!(p("0"), Some(0));
    assert_eq!(p("+17"), Some(17));
    assert_eq!(p("18446744073709551615"), Some(usize::MAX));
    assert_eq!(p("18446744073709551616"), None);
    assert_eq!(p("+"), None);
    assert_eq!(p("-1"), None);
    assert_eq!(p("1 2"), None);
}

#[test]
fn parent_table_finds_registered_dirs() {
    let mut t = ParentTable::new();
    t.register("/r", 100);
    t.register("/r/a", 200);
    assert_eq!(t.parent_of("/r", 0, 100, 100), 100);
    assert_eq!(t.parent_of("/r/a", 1, 200, 100), 100);
    assert_eq!(t.parent_of("/r/a/f", 2, 300, 100), 200);
    // Paths compare by components.
    assert_eq!(t.parent_of("/r//a/g", 2, 301, 100), 200);
    assert_eq!(t.parent_of("/x/y", 2, 302, 100), 100);
}

#[test]
fn topo_entries_skip_metadata_and_reparse_points() {
    assert!(topo_entry_of(5, 5, "$MFT".to_string(), 0).is_none());
    assert!(topo_entry_of(30, 5, "link".to_string(), 0x400).is_none());
    let e = topo_entry_of(30, 5, "dir".to_string(), 0x10).unwrap();
    assert!(e.is_dir);
    assert_eq!(e.fid, 30);
    assert_eq!(e.name, "dir");
}

#[test]
fn helper_requests_and_errors() {
    assert_eq!(plan_request(&HelperRequest::Ping), HelperAction::Pong);
    assert_eq!(plan_request(&HelperRequest::Shutdown), HelperAction::Stop);
    assert_eq!(
        plan_request(&HelperRequest::PollChanges { volume: "C:\\".to_string(), journal_id: 1, next_usn: 2 }),
        HelperAction::Poll { volume: "C:\\".to_string(), cursor: WireCursor { journal_id: 1, next_usn: 2 } }
    );
    assert_eq!(
        pong("1.2.3".to_string()),
        HelperResponse::Pong { version: "1.2.3".to_string(), protocol_version: PROTOCOL_VERSION }
    );
    let denied = FsIndexerError::MftAccess { volume: "C:".to_string(), source: "no".to_string() };
    assert_eq!(scan_error_code(&denied), ErrorCode::MftAccessDenied);
    let unsupported = FsIndexerError::UnsupportedFs { kind: FilesystemKind::Fat32 };
    assert_eq!(scan_error_code(&unsupported), ErrorCode::InvalidVolume);
    assert_eq!(scan_error_code(&FsIndexerError::Io("x".to_string())), ErrorCode::Internal);
    assert_eq!(
        error_response(ErrorCode::MftAccessDenied, &denied),
        HelperResponse::Error { code: ErrorCode::MftAccessDenied, message: "MFT access denied on volume C:: no".to_string() }
    );
}

#[test]
fn allocated_blocks() {
    assert_eq!(allocated_from_blocks(8), 4096);
}
