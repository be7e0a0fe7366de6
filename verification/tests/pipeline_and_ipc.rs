use hyprdrive::ipc::{frame_payload, parse_frame, FrameError, MAX_MESSAGE_SIZE, PIPE_NAME, PROTOCOL_VERSION};
use hyprdrive::pipeline::changes::ChangeProcessor;
use hyprdrive::pipeline::fid_map::{fid_as_i64, FidMap};
use hyprdrive::pipeline::{location_id_for_entry, mime_from_extension, BackgroundHasherConfig, ChangeStats, PipelineConfig, NO_PARENT_FID};

#[test]
fn test_change_stats_defaults() {
    let stats = ChangeStats::default();
    assert_eq!(stats.created, 0);
    assert_eq!(stats.deleted, 0);
    assert_eq!(stats.moved, 0);
    assert_eq!(stats.modified, 0);
    assert_eq!(stats.errors, 0);
    assert!(!stats.rescan_needed);
}

#[test]
fn mime_detection_common_types() {
    assert_eq!(mime_from_extension("photo.jpg"), Some("image/jpeg".to_string()));
    assert_eq!(mime_from_extension("doc.pdf"), Some("application/pdf".to_string()));
    assert_eq!(mime_from_extension("code.rs"), Some("text/x-rust".to_string()));
    assert_eq!(mime_from_extension("noext"), None);
    assert_eq!(mime_from_extension("file.xyz123"), None);
}

#[test]
fn mime_detection_is_case_insensitive() {
    assert_eq!(mime_from_extension("/x/PHOTO.JPG"), Some("image/jpeg".to_string()));
}

#[test]
fn pipeline_config_defaults() {
    let c = PipelineConfig::new("vol".to_string());
    assert_eq!(c.volume_id, "vol");
    assert_eq!(c.batch_size, 20_000);
    assert!(!c.skip_directories);
    assert!(c.mime_detection);
    let b = BackgroundHasherConfig::new("v".to_string());
    assert_eq!(b.batch_size, 500);
    assert_eq!(b.batch_delay, std::time::Duration::from_millis(100));
    assert_eq!(NO_PARENT_FID, 0);
}

#[test]
fn test_seed_fid_map() {
    let mut processor = ChangeProcessor::new("C".to_string());
    processor.seed_fid_map(&[(42, "C:\\test.txt".to_string())]);
    assert_eq!(processor.get_path(42), Some("C:\\test.txt".to_string()));
}

#[test]
fn test_resolve_path() {
    let mut processor = ChangeProcessor::new("C".to_string());
    processor.seed_fid_map(&[(10, "C:\\docs".to_string())]);
    // The name is joined onto the parent's path with the platform separator.
    assert_eq!(processor.resolve_path(10, "readme.md"), Some("C:\\docs/readme.md".to_string()));
    // Missing parent returns None.
    assert!(processor.resolve_path(999, "nope.txt").is_none());
}

#[test]
fn fid_map_seed_and_resolve() {
    let mut map = FidMap::new();
    map.seed(&[(10, "/docs".to_string())]);
    assert_eq!(map.get_path(10), Some("/docs".to_string()));
    assert_eq!(map.resolve_path(10, "readme.md"), Some("/docs/readme.md".to_string()));
    assert!(map.resolve_path(999, "nope.txt").is_none());
}

#[test]
fn fid_map_follows_changes() {
    let mut map = FidMap::new();
    map.seed(&[(1, "/v".to_string()), (2, "/v/a.txt".to_string())]);
    // A sparse created entry gets its path from its parent.
    assert_eq!(map.place_created(3, 1, "b.txt", String::new()), Some("/v/b.txt".to_string()));
    assert_eq!(map.get_path(3), Some("/v/b.txt".to_string()));
    // Without a known parent it is an error and nothing changes.
    assert_eq!(map.place_created(4, 77, "c.txt", String::new()), None);
    assert_eq!(map.get_path(4), None);
    // A full path is taken as is.
    assert_eq!(map.place_created(5, 77, "d", "/w/d".to_string()), Some("/w/d".to_string()));
    // Modified entries are re-processed under their path and file name.
    assert_eq!(map.modify_target(2), Some(("/v/a.txt".to_string(), "a.txt".to_string())));
    map.insert(6, "/".to_string());
    assert_eq!(map.modify_target(6), None);
    map.remove(2);
    assert_eq!(map.modify_target(2), None);
    assert_eq!(fid_as_i64(7), Some(7));
    assert_eq!(fid_as_i64(u64::MAX), None);
}

#[test]
fn framing_round_trip() {
    let payload = b"hello".to_vec();
    let framed = frame_payload(&payload).unwrap();
    assert_eq!(&framed[..4], &5u32.to_le_bytes());
    let (back, used) = parse_frame(&framed).unwrap();
    assert_eq!(back, payload);
    assert_eq!(used, 9);
}

#[test]
fn framing_rejects_short_input() {
    assert_eq!(parse_frame(&[0u8; 2]), Err(FrameError::Truncated));
    let mut buf = Vec::new();
    buf.extend_from_slice(&100u32.to_le_bytes());
    buf.extend_from_slice(&[0u8; 10]);
    assert_eq!(parse_frame(&buf), Err(FrameError::Truncated));
}

#[test]
fn framing_rejects_oversized_prefix() {
    let too_big = (MAX_MESSAGE_SIZE + 1).to_le_bytes();
    assert_eq!(parse_frame(&too_big), Err(FrameError::TooLarge(MAX_MESSAGE_SIZE + 1)));
}

#[test]
fn framing_reads_consecutive_messages() {
    let mut buf = frame_payload(b"a").unwrap();
    buf.extend(frame_payload(b"bc").unwrap());
    let (first, n) = parse_frame(&buf).unwrap();
    assert_eq!(first, b"a".to_vec());
    let (second, _) = parse_frame(&buf[n..]).unwrap();
    assert_eq!(second, b"bc".to_vec());
}

#[test]
fn protocol_constants() {
    assert_eq!(PROTOCOL_VERSION, 1);
    assert_eq!(MAX_MESSAGE_SIZE, 128 * 1024 * 1024);
    assert_eq!(PIPE_NAME, "\\\\.\\pipe\\hyprdrive-helper");
}

#[test]
fn location_id_deterministic() {
    let a = location_id_for_entry("vol1", b"/a/b/c.txt");
    let b = location_id_for_entry("vol1", b"/a/b/c.txt");
    assert_eq!(a, b);
}

#[test]
fn location_id_unique_per_path() {
    let a = location_id_for_entry("vol1", b"/a/b/c.txt");
    let b = location_id_for_entry("vol1", b"/a/b/d.txt");
    assert_ne!(a, b);
}

#[test]
fn location_id_unique_per_volume() {
    let a = location_id_for_entry("vol1", b"/a/b.txt");
    let b = location_id_for_entry("vol2", b"/a/b.txt");
    assert_ne!(a, b);
}

#[test]
fn location_id_is_digest_of_volume_and_path() {
    assert_eq!(location_id_for_entry("vol1", b"/a/b.txt"), *blake3::hash(b"vol1:/a/b.txt").as_bytes());
}
