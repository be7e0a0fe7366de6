use hyprdrive::disk::bubble_up::compute_bubble_up;
use hyprdrive::disk::patterns::{build_artifact_patterns, build_artifact_sql_fragment, is_build_artifact_dir};

#[test]
fn file_created_propagates_to_all_ancestors() {
    let ancestors = vec!["dir_a".to_string(), "dir_b".to_string(), "root".to_string()];
    let deltas = compute_bubble_up(&ancestors, 1, 4096, 4096);
    assert_eq!(deltas.len(), 3);
    for d in &deltas {
        assert_eq!(d.file_count_delta, 1);
        assert_eq!(d.bytes_delta, 4096);
        assert_eq!(d.allocated_delta, 4096);
    }
    assert_eq!(deltas[0].location_id, "dir_a");
    assert_eq!(deltas[1].location_id, "dir_b");
    assert_eq!(deltas[2].location_id, "root");
}

#[test]
fn file_deleted_propagates_negative_deltas() {
    let ancestors = vec!["parent".to_string()];
    let deltas = compute_bubble_up(&ancestors, -1, -8192, -8192);
    assert_eq!(deltas.len(), 1);
    assert_eq!(deltas[0].file_count_delta, -1);
    assert_eq!(deltas[0].bytes_delta, -8192);
}

#[test]
fn empty_ancestors_returns_empty() {
    let deltas = compute_bubble_up(&[], 1, 100, 200);
    assert!(deltas.is_empty());
}

#[test]
fn known_patterns_match() {
    assert!(is_build_artifact_dir("node_modules"));
    assert!(is_build_artifact_dir("target"));
    assert!(is_build_artifact_dir("__pycache__"));
    assert!(is_build_artifact_dir(".gradle"));
    assert!(is_build_artifact_dir("NODE_MODULES")); // case-insensitive
}

#[test]
fn non_patterns_dont_match() {
    assert!(!is_build_artifact_dir("src"));
    assert!(!is_build_artifact_dir("Documents"));
    assert!(!is_build_artifact_dir("my_target_folder"));
    assert!(!is_build_artifact_dir(""));
}

#[test]
fn sql_fragment_covers_all_patterns() {
    let sql = build_artifact_sql_fragment();
    assert!(sql.starts_with("LOWER(l.name) IN ("));
    for p in build_artifact_patterns() {
        assert!(sql.contains(&format!("'{p}'")), "missing pattern: {p}");
    }
}

#[test]
fn sql_fragment_exact_text_starts_and_ends() {
    let sql = build_artifact_sql_fragment();
    assert!(sql.starts_with("LOWER(l.name) IN ('node_modules', 'target'"));
    assert!(sql.ends_with(")"));
}
