use hyprdrive::dedup::error::DeduplicateError;
use hyprdrive::dedup::file_entry::FileEntry;
use hyprdrive::dedup::fuzzy::{extension_buckets, normalize_name, MAX_BUCKET_SIZE};
use hyprdrive::dedup::grouping::{group_matches, select_reference, MatchKind, UnionFind};
use hyprdrive::dedup::perceptual::is_image;
use hyprdrive::dedup::reflink::{reflink_dedup_batch, reflink_outcome, supports_reflink, ReflinkResult};
use hyprdrive::hashing::should_mid_hash;

fn make_entry(path: &str, size: u64, name: &str, mtime: i64) -> FileEntry {
    FileEntry::new(
        path.to_string(),
        size,
        name.to_string(),
        name.split('.').last().map(String::from),
        mtime,
        None,
    )
}

#[test]
fn normalize_copy_of() {
    assert_eq!(normalize_name("Copy of Budget.xlsx"), "budget");
}

#[test]
fn normalize_numbered_copy() {
    assert_eq!(normalize_name("Report (1).pdf"), "report");
}

#[test]
fn normalize_dash_copy() {
    assert_eq!(normalize_name("photo - Copy.jpg"), "photo");
}

#[test]
fn normalize_unchanged() {
    assert_eq!(normalize_name("normal_file.txt"), "normal_file");
}

#[test]
fn normalize_multiple_patterns() {
    assert_eq!(normalize_name("Copy of file (2).doc"), "file");
}

#[test]
fn union_find_basic() {
    let mut uf = UnionFind::new(5);
    uf.union(0, 1);
    uf.union(1, 2);
    assert_eq!(uf.find(0), uf.find(2));
    assert_ne!(uf.find(0), uf.find(3));
}

#[test]
fn union_find_transitivity() {
    let mut uf = UnionFind::new(4);
    uf.union(0, 1);
    uf.union(1, 2);
    uf.union(2, 3);
    let root = uf.find(0);
    assert_eq!(uf.find(1), root);
    assert_eq!(uf.find(2), root);
    assert_eq!(uf.find(3), root);
}

#[test]
fn union_find_self_union() {
    let mut uf = UnionFind::new(3);
    uf.union(1, 1);
    assert_eq!(uf.find(1), 1);
}

#[test]
fn union_find_keeps_other_sets_apart() {
    let mut uf = UnionFind::new(6);
    uf.union(0, 1);
    uf.union(4, 5);
    assert_eq!(uf.find(0), uf.find(1));
    assert_eq!(uf.find(4), uf.find(5));
    assert_ne!(uf.find(1), uf.find(4));
    assert_eq!(uf.find(2), 2);
    assert_eq!(uf.find(3), 3);
}

#[test]
fn select_reference_prefers_shallow() {
    let files = vec![
        make_entry("/photos/backup/deep/img.jpg", 100, "img.jpg", 1000),
        make_entry("/photos/img.jpg", 100, "img.jpg", 1000),
    ];
    let (reference, duplicates) = select_reference(&files);
    assert_eq!(reference.path, "/photos/img.jpg");
    assert_eq!(duplicates.len(), 1);
}

#[test]
fn select_reference_penalizes_copy_pattern() {
    let files = vec![
        make_entry("/test/Copy of file.txt", 100, "Copy of file.txt", 1000),
        make_entry("/test/file.txt", 100, "file.txt", 1000),
    ];
    let (reference, duplicates) = select_reference(&files);
    assert_eq!(reference.path, "/test/file.txt");
    assert_eq!(duplicates.len(), 1);
}

#[test]
fn select_reference_single_file() {
    let files = vec![make_entry("/test/file.txt", 100, "file.txt", 1000)];
    let (reference, duplicates) = select_reference(&files);
    assert_eq!(reference.name, "file.txt");
    assert!(duplicates.is_empty());
}

#[test]
fn select_reference_tie_keeps_last_best() {
    // Equal scores: the later of the tied files is the reference.
    let files = vec![
        make_entry("/a/x.txt", 1, "x.txt", 5),
        make_entry("/b/x.txt", 1, "x.txt", 5),
    ];
    let (reference, duplicates) = select_reference(&files);
    assert_eq!(reference.path, "/b/x.txt");
    assert_eq!(duplicates[0].path, "/a/x.txt");
}

#[test]
fn group_matches_transitive() {
    let files = vec![
        make_entry("/a.txt", 100, "a.txt", 0),
        make_entry("/b.txt", 100, "b.txt", 0),
        make_entry("/c.txt", 100, "c.txt", 0),
    ];
    // a=b, b=c → {a,b,c}
    let pairs = vec![(0, 1, MatchKind::Content), (1, 2, MatchKind::Content)];
    let groups = group_matches(&files, pairs);
    assert_eq!(groups.len(), 1);
    assert_eq!(groups[0].duplicates.len(), 2);
}

#[test]
fn group_matches_two_separate_groups() {
    let files = vec![
        make_entry("/a.txt", 100, "a.txt", 0),
        make_entry("/b.txt", 100, "b.txt", 0),
        make_entry("/c.txt", 200, "c.txt", 0),
        make_entry("/d.txt", 200, "d.txt", 0),
    ];
    let pairs = vec![(0, 1, MatchKind::Content), (2, 3, MatchKind::Content)];
    let groups = group_matches(&files, pairs);
    assert_eq!(groups.len(), 2);
}

#[test]
fn group_matches_empty_pairs() {
    let files = vec![make_entry("/a.txt", 100, "a.txt", 0)];
    let groups = group_matches(&files, Vec::new());
    assert!(groups.is_empty());
}

#[test]
fn group_matches_wasted_bytes() {
    let files = vec![
        make_entry("/original.txt", 1000, "original.txt", 0),
        make_entry("/Copy of original.txt", 1000, "Copy of original.txt", 0),
        make_entry("/original (1).txt", 1000, "original (1).txt", 0),
    ];
    let pairs = vec![(0, 1, MatchKind::Content), (0, 2, MatchKind::Content)];
    let groups = group_matches(&files, pairs);
    assert_eq!(groups.len(), 1);
    // Reference = original.txt, duplicates = 2 × 1000 = 2000 wasted
    assert_eq!(groups[0].total_wasted_bytes, 2000);
}

#[test]
fn group_matches_kind_of_first_pair() {
    let files = vec![
        make_entry("/a.txt", 10, "a.txt", 0),
        make_entry("/b.txt", 10, "b.txt", 0),
        make_entry("/c.txt", 10, "c.txt", 0),
    ];
    let pairs = vec![(0, 1, MatchKind::FuzzyFilename), (1, 2, MatchKind::Content)];
    let groups = group_matches(&files, pairs);
    assert_eq!(groups.len(), 1);
    assert_eq!(groups[0].match_kind, MatchKind::FuzzyFilename);
}

#[test]
fn should_mid_hash_threshold() {
    // Files < 2MB should skip mid-hash
    assert!(!should_mid_hash(1024));
    assert!(!should_mid_hash(1024 * 1024)); // 1MB
    // Files >= 2MB benefit from mid-hash
    assert!(should_mid_hash(2 * 1024 * 1024));
    assert!(should_mid_hash(10 * 1024 * 1024));
}

#[test]
fn should_mid_hash_boundary() {
    assert!(!should_mid_hash(2 * 1024 * 1024 - 1));
    assert!(should_mid_hash(2 * 1024 * 1024));
}

#[test]
fn file_entry_new_fields() {
    let entry = FileEntry::new(
        "/test/file.txt".to_string(),
        100,
        "file.txt".to_string(),
        Some("txt".to_string()),
        1234567890,
        None,
    );
    assert_eq!(entry.size, 100);
    assert_eq!(entry.name, "file.txt");
    assert_eq!(entry.extension, Some("txt".to_string()));
}

#[test]
fn path_depth_calculation() {
    let entry = FileEntry::new(
        "/home/user/photos/img.jpg".to_string(),
        100,
        "img.jpg".to_string(),
        Some("jpg".to_string()),
        0,
        None,
    );
    assert!(entry.path_depth() >= 4);
}

#[test]
fn path_depth_counts_root_and_components() {
    let entry = FileEntry::from_metadata("/home/user/photos/img.jpg".to_string(), 1, 0);
    assert_eq!(entry.path_depth(), 5);
    let rel = FileEntry::from_metadata("a/b".to_string(), 1, 0);
    assert_eq!(rel.path_depth(), 2);
}

#[test]
fn from_metadata_derives_name_and_extension() {
    let e = FileEntry::from_metadata("/x/Photo.JPG".to_string(), 7, 9);
    assert_eq!(e.name, "Photo.JPG");
    assert_eq!(e.extension, Some("jpg".to_string()));
    assert_eq!(e.size, 7);
    assert_eq!(e.modified_at, 9);
    assert!(e.inode.is_none());
}

#[test]
fn has_copy_pattern_detection() {
    let copy1 = FileEntry::new(
        "/test/Copy of file.txt".to_string(),
        100,
        "Copy of file.txt".to_string(),
        Some("txt".to_string()),
        0,
        None,
    );
    assert!(copy1.has_copy_pattern());

    let copy2 = FileEntry::new(
        "/test/file (1).txt".to_string(),
        100,
        "file (1).txt".to_string(),
        Some("txt".to_string()),
        0,
        None,
    );
    assert!(copy2.has_copy_pattern());

    let original = FileEntry::new(
        "/test/file.txt".to_string(),
        100,
        "file.txt".to_string(),
        Some("txt".to_string()),
        0,
        None,
    );
    assert!(!original.has_copy_pattern());
}

#[test]
fn is_image_recognizes_common_formats() {
    assert!(is_image("jpg"));
    assert!(is_image("JPEG"));
    assert!(is_image("png"));
    assert!(is_image("webp"));
    assert!(is_image("bmp"));
    assert!(is_image("gif"));
    assert!(is_image("tiff"));
    assert!(is_image("tif"));
}

#[test]
fn is_image_rejects_non_images() {
    assert!(!is_image("pdf"));
    assert!(!is_image("txt"));
    assert!(!is_image("mp3"));
    assert!(!is_image("doc"));
}

#[test]
fn reflink_result_fields() {
    let result = ReflinkResult {
        source: "/a/file.txt".to_string(),
        dest: "/b/file.txt".to_string(),
        bytes_deduped: 4096,
        success: true,
        error: None,
    };
    assert!(result.success);
    assert_eq!(result.bytes_deduped, 4096);
    assert!(result.error.is_none());
}

#[test]
fn reflink_result_failure() {
    let result = ReflinkResult {
        source: "/a/file.txt".to_string(),
        dest: "/b/file.txt".to_string(),
        bytes_deduped: 0,
        success: false,
        error: Some("not supported".to_string()),
    };
    assert!(!result.success);
    assert_eq!(result.bytes_deduped, 0);
}

#[test]
fn supports_reflink_on_current_platform() {
    // Just verify it doesn't panic
    let result = supports_reflink(".");
    let _ = result;
}

#[test]
fn reflink_outcome_reports_both_cases() {
    let ok = reflink_outcome("/a", "/b", &Ok(123));
    assert!(ok.success);
    assert_eq!(ok.bytes_deduped, 123);
    assert_eq!(ok.source, "/a");
    assert_eq!(ok.dest, "/b");
    let err = reflink_outcome("/a", "/c", &Err("boom".to_string()));
    assert!(!err.success);
    assert_eq!(err.bytes_deduped, 0);
    assert_eq!(err.error, Some("boom".to_string()));
}

#[test]
fn reflink_batch_one_result_per_destination() {
    let dests = vec!["/x".to_string(), "/y".to_string()];
    let outcomes = vec![Ok(10), Err("nope".to_string())];
    let results = reflink_dedup_batch("/src", &dests, &outcomes);
    assert_eq!(results.len(), 2);
    assert!(results[0].success);
    assert_eq!(results[0].dest, "/x");
    assert!(!results[1].success);
    assert_eq!(results[1].dest, "/y");
}

#[test]
fn dedup_error_messages() {
    assert_eq!(DeduplicateError::Io("disk".to_string()).message(), "IO error: disk");
    assert_eq!(DeduplicateError::HashError("h".to_string()).message(), "hash error: h");
    assert_eq!(DeduplicateError::ImageError("i".to_string()).message(), "image error: i");
}

#[test]
fn extension_buckets_group_in_first_seen_order() {
    let files = vec![
        FileEntry::from_metadata("/t/report.pdf".to_string(), 1, 0),
        FileEntry::from_metadata("/t/photo.jpg".to_string(), 1, 0),
        FileEntry::from_metadata("/t/report (1).pdf".to_string(), 1, 0),
        FileEntry::from_metadata("/t/notes".to_string(), 1, 0),
        FileEntry::from_metadata("/t/photo.png".to_string(), 1, 0),
        FileEntry::from_metadata("/t/README".to_string(), 1, 0),
        FileEntry::from_metadata("/t/Report (2).PDF".to_string(), 1, 0),
    ];
    // jpg and png stand alone and are left out; files without extension group together.
    assert_eq!(extension_buckets(&files), vec![vec![0, 2, 6], vec![3, 5]]);
    assert!(extension_buckets(&[]).is_empty());
}

#[test]
fn extension_buckets_are_capped() {
    let files: Vec<FileEntry> =
        (0..600).map(|i| FileEntry::from_metadata(format!("/t/file_{i}.dat"), 1, 0)).collect();
    let b = extension_buckets(&files);
    assert_eq!(b.len(), 1);
    assert_eq!(b[0].len(), MAX_BUCKET_SIZE);
    assert_eq!(b[0], (0..500).collect::<Vec<usize>>());
}
