use hyprdrive::indexer::fallback::{allocated_estimate, SyntheticFids};
use hyprdrive::indexer::mft::{build_parent_map, reconstruct_path, reconstruct_paths_cached, TopoEntry};
use hyprdrive::indexer::types::{FilesystemKind, UsnCursor};
use hyprdrive::indexer::windows::{
    drive_info, drive_letter, drive_letter_from_path, enumerate_volumes, parse_wsl_output,
    usn_changes, volume_key, wsl_drive_info, DriveType, ListenerConfig, NoUsnCursorStore,
    UsnChange, UsnCursorStore, UsnRecord, ENRICH_BATCH_SIZE, FILE_ATTRIBUTE_DIRECTORY,
    FILE_ATTRIBUTE_REPARSE_POINT, MIN_SYNTHETIC_FID, MIN_USER_FRN, USN_REASON_FILE_CREATE,
    USN_REASON_FILE_DELETE, USN_REASON_RENAME_NEW_NAME,
};
use hyprdrive::indexer::windows::{enrich_windows_entry, WinEnrichOutcome};
use std::time::Duration;

/// NTFS root FRN record number used in test scenarios.
const TEST_ROOT_FRN: u64 = 5;

fn this_machine_drives() -> Vec<hyprdrive::indexer::windows::DriveInfo> {
    enumerate_volumes(
        vec![
            drive_info('C', DriveType::Fixed, Some(FilesystemKind::Ntfs)),
            drive_info('E', DriveType::Removable, Some(FilesystemKind::ExFat)),
        ],
        vec![wsl_drive_info("Ubuntu")],
    )
}

#[test]
fn enumerate_volumes_finds_c_drive() {
    let volumes = this_machine_drives();
    assert!(!volumes.is_empty(), "should find at least one volume");
    let c = volumes.iter().find(|d| d.volume_id == "C");
    assert!(c.is_some(), "C: drive should always be present");
}

#[test]
fn enumerate_volumes_c_is_ntfs_fixed() {
    let volumes = this_machine_drives();
    let c = volumes.iter().find(|d| d.volume_id == "C").expect("C: should be present");
    assert_eq!(c.drive_type, DriveType::Fixed);
    assert_eq!(c.fs_kind, Some(FilesystemKind::Ntfs));
}

#[test]
fn enumerate_volumes_all_have_paths() {
    let volumes = this_machine_drives();
    for d in &volumes {
        assert!(!d.path.is_empty(), "drive {} has empty path", d.volume_id);
        assert!(!d.volume_id.is_empty(), "drive has empty volume_id");
    }
    assert_eq!(volumes[0].path, "C:\\");
    assert_eq!(volumes[2].volume_id, "wsl:Ubuntu");
}

#[test]
fn wsl_output_parsing_utf8() {
    let raw = b"Ubuntu\nDebian\n\n";
    let names = parse_wsl_output(raw);
    assert_eq!(names, vec!["Ubuntu", "Debian"]);
}

#[test]
fn wsl_output_parsing_utf16le() {
    // "Ubuntu\r\n" encoded as UTF-16LE
    let text = "Ubuntu\r\n";
    let raw: Vec<u8> = text.encode_utf16().flat_map(|c| c.to_le_bytes()).collect();
    let names = parse_wsl_output(&raw);
    assert_eq!(names, vec!["Ubuntu"]);
}

#[test]
fn wsl_output_parsing_empty() {
    let names = parse_wsl_output(b"");
    assert!(names.is_empty());
}

#[test]
fn wsl_output_parsing_with_bom() {
    // UTF-16LE with BOM (0xFFFE) then "Ubuntu\r\n"
    let text = "\u{FEFF}Ubuntu\r\n";
    let raw: Vec<u8> = text.encode_utf16().flat_map(|c| c.to_le_bytes()).collect();
    let names = parse_wsl_output(&raw);
    assert!(names.iter().any(|n| n == "Ubuntu"), "should find Ubuntu in {:?}", names);
}

#[test]
fn enrich_batch_size_reasonable() {
    assert_eq!(ENRICH_BATCH_SIZE, 5000);
}

#[test]
fn listener_config_defaults() {
    let config = ListenerConfig::default();
    assert_eq!(config.poll_interval, Duration::from_millis(100));
    assert_eq!(config.channel_capacity, 10_000);
    assert!(config.volumes.is_empty());
}

#[test]
fn listener_config_builder() {
    let config = ListenerConfig::default()
        .with_poll_interval(Duration::from_millis(50))
        .with_capacity(5_000)
        .add_volume("C:\\".to_string())
        .add_volume("D:\\".to_string());

    assert_eq!(config.poll_interval, Duration::from_millis(50));
    assert_eq!(config.channel_capacity, 5_000);
    assert_eq!(config.volumes.len(), 2);
}

#[test]
fn volume_key_extraction() {
    assert_eq!(volume_key("C:\\"), "C");
    assert_eq!(volume_key("D:\\"), "D");
    assert_eq!(volume_key("/mnt/data"), "/mnt/data");
}

#[test]
fn no_cursor_store_works() {
    let store = NoUsnCursorStore;
    let cursor = UsnCursor { journal_id: 42, next_usn: 100 };
    store.save("C", &cursor).unwrap();
    assert_eq!(store.load("C").unwrap(), None);
}

#[test]
fn min_user_frn_skips_metadata() {
    assert_eq!(MIN_USER_FRN, 24);
    // NTFS root (FRN 5) is below MIN_USER_FRN, so it gets excluded.
    assert!(TEST_ROOT_FRN < MIN_USER_FRN);
}

#[test]
fn file_attribute_flags_correct() {
    assert_eq!(FILE_ATTRIBUTE_DIRECTORY, 0x10);
    assert_eq!(FILE_ATTRIBUTE_REPARSE_POINT, 0x400);
}

#[test]
fn mft_drive_letter_extraction() {
    assert_eq!(drive_letter_from_path("C:\\").unwrap(), 'C');
    assert_eq!(drive_letter_from_path("D:\\Users").unwrap(), 'D');
    assert!(drive_letter_from_path("/mnt/data").is_err());
}

#[test]
fn min_synthetic_fid_high_enough() {
    // Ensure synthetic FIDs don't collide with real NTFS FRNs
    assert!(MIN_SYNTHETIC_FID > 1_000_000);
}

#[test]
fn usn_reason_flags_correct() {
    assert_eq!(USN_REASON_FILE_CREATE, 0x100);
    assert_eq!(USN_REASON_FILE_DELETE, 0x200);
    assert_eq!(USN_REASON_RENAME_NEW_NAME, 0x2000);
}

#[test]
fn usn_drive_letter_extraction() {
    assert_eq!(drive_letter("C:\\").unwrap(), 'C');
    assert!(drive_letter("/mnt/data").is_err());
}

fn topo(fid: u64, parent_fid: u64, name: &str) -> TopoEntry {
    TopoEntry { fid, parent_fid, name: name.to_string(), is_dir: false, attributes: 0 }
}

#[test]
fn reconstruct_path_simple() {
    let map = build_parent_map(&[
        topo(TEST_ROOT_FRN, TEST_ROOT_FRN, ""),
        topo(100, TEST_ROOT_FRN, "Users"),
        topo(200, 100, "file.txt"),
    ]);
    assert_eq!(reconstruct_path(200, &map, "C:\\"), Some("C:\\Users\\file.txt".to_string()));
    assert_eq!(reconstruct_path(999, &map, "C:\\"), None);
}

#[test]
fn reconstruct_paths_cached_basic() {
    let map = build_parent_map(&[
        topo(TEST_ROOT_FRN, TEST_ROOT_FRN, ""),
        topo(100, TEST_ROOT_FRN, "Users"),
        topo(200, 100, "a.txt"),
        topo(201, 100, "b.txt"),
        topo(300, 999, "orphan.txt"),
    ]);
    let out = reconstruct_paths_cached(&[200, 201, 300], &map, "C:\\");
    assert_eq!(out.len(), 2);
    assert_eq!(out[&200], "C:\\Users\\a.txt");
    assert_eq!(out[&201], "C:\\Users\\b.txt");
    assert!(!out.contains_key(&300));
}

#[test]
fn build_parent_map_later_entry_wins() {
    let map = build_parent_map(&[topo(7, 1, "old"), topo(7, 2, "new")]);
    assert_eq!(map[&7], (2, "new".to_string()));
}

#[test]
fn synthetic_fids_follow_walk_order_and_parents() {
    let mut ids = SyntheticFids::new();
    let (root, root_parent) = ids.assign("C:\\data", 0, true);
    assert_eq!(root, MIN_SYNTHETIC_FID);
    assert_eq!(root_parent, root);
    let (sub, sub_parent) = ids.assign("C:\\data\\sub", 1, true);
    assert_eq!(sub, MIN_SYNTHETIC_FID + 1);
    assert_eq!(sub_parent, root);
    let (file, file_parent) = ids.assign("C:\\data\\sub\\f.txt", 2, false);
    assert_eq!(file, MIN_SYNTHETIC_FID + 2);
    assert_eq!(file_parent, sub);
    // Unknown parent directory falls back to the walk's root id.
    let (_, lost_parent) = ids.assign("C:\\elsewhere\\g.txt", 1, false);
    assert_eq!(lost_parent, MIN_SYNTHETIC_FID);
}

#[test]
fn cluster_rounding() {
    assert_eq!(allocated_estimate(0), 0);
    assert_eq!(allocated_estimate(1), 4096);
    assert_eq!(allocated_estimate(4096), 4096);
    assert_eq!(allocated_estimate(4097), 8192);
}

#[test]
fn usn_records_become_changes() {
    let cursor = UsnCursor { journal_id: 1, next_usn: 10 };
    let records = vec![
        UsnRecord { usn: 11, reason: USN_REASON_FILE_CREATE, fid: 50, parent_fid: 5, file_name: "n.txt".to_string(), file_attributes: 0 },
        UsnRecord { usn: 12, reason: USN_REASON_FILE_DELETE, fid: 51, parent_fid: 5, file_name: "d.txt".to_string(), file_attributes: 0 },
    ];
    let (changes, next) = usn_changes(cursor, &records);
    assert_eq!(changes.len(), 2);
    assert!(matches!(changes[0], UsnChange::Created { fid: 50, .. }));
    assert!(matches!(changes[1], UsnChange::Deleted { fid: 51 }));
    assert_eq!(next.journal_id, 1);
    assert!(next.next_usn >= 12);
}

fn fresh_stats() -> hyprdrive::indexer::windows::EnrichStats {
    hyprdrive::indexer::windows::EnrichStats { enriched: 0, skipped: 0, access_denied: 0, not_found: 0, other_errors: 0 }
}

#[test]
fn windows_enrich_opened_file_gets_clamped_sizes() {
    let mut stats = fresh_stats();
    let r = enrich_windows_entry(&mut stats, false, WinEnrichOutcome::Opened { end_of_file: 1234, allocation: 4096 });
    assert_eq!(r, Some((1234, 4096)));
    let r = enrich_windows_entry(&mut stats, false, WinEnrichOutcome::Opened { end_of_file: -5, allocation: 8 });
    assert_eq!(r, Some((0, 8)));
    assert_eq!((stats.enriched, stats.skipped, stats.other_errors), (2, 0, 0));
}

#[test]
fn windows_enrich_failures_give_size_zero_and_are_counted_by_kind() {
    let mut stats = fresh_stats();
    assert_eq!(enrich_windows_entry(&mut stats, false, WinEnrichOutcome::OpenFailed { code: 0x80070005 }), Some((0, 0)));
    assert_eq!(enrich_windows_entry(&mut stats, false, WinEnrichOutcome::OpenFailed { code: 0x80070002 }), Some((0, 0)));
    assert_eq!(enrich_windows_entry(&mut stats, false, WinEnrichOutcome::OpenFailed { code: 0x80070003 }), Some((0, 0)));
    assert_eq!(enrich_windows_entry(&mut stats, false, WinEnrichOutcome::OpenFailed { code: 0x80070020 }), Some((0, 0)));
    assert_eq!(enrich_windows_entry(&mut stats, false, WinEnrichOutcome::InfoFailed), Some((0, 0)));
    assert_eq!(stats.enriched, 0);
    assert_eq!(stats.skipped, 5);
    assert_eq!(stats.access_denied, 1);
    assert_eq!(stats.not_found, 2);
    assert_eq!(stats.other_errors, 2);
}

#[test]
fn windows_enrich_leaves_directories_alone() {
    let mut stats = fresh_stats();
    assert_eq!(enrich_windows_entry(&mut stats, true, WinEnrichOutcome::Opened { end_of_file: 10, allocation: 10 }), None);
    assert_eq!(enrich_windows_entry(&mut stats, true, WinEnrichOutcome::InfoFailed), None);
    assert_eq!((stats.enriched, stats.skipped, stats.access_denied, stats.not_found, stats.other_errors), (0, 0, 0, 0, 0));
}
