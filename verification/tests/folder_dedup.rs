use hyprdrive::dedup::file_entry::FileEntry;
use hyprdrive::dedup::folder_dedup::{find_duplicate_folders, FolderDedupConfig};

fn make_entry(path: &str, size: u64) -> FileEntry {
    FileEntry::from_metadata(path.to_string(), size, 0)
}

#[test]
fn identical_folders_detected() {
    let files = vec![
        // Folder A
        make_entry("/data/folder-a/file1.txt", 100),
        make_entry("/data/folder-a/file2.txt", 200),
        // Folder B (identical content)
        make_entry("/data/folder-b/file1.txt", 100),
        make_entry("/data/folder-b/file2.txt", 200),
    ];

    let groups = find_duplicate_folders(&files, &FolderDedupConfig::default());
    assert_eq!(groups.len(), 1);
    assert_eq!(groups[0].directories.len(), 2);
    assert_eq!(groups[0].file_count, 2);
    assert_eq!(groups[0].total_size, 300);
}

#[test]
fn different_folders_not_grouped() {
    let files = vec![
        make_entry("/data/folder-a/file1.txt", 100),
        make_entry("/data/folder-a/file2.txt", 200),
        make_entry("/data/folder-b/file1.txt", 100),
        make_entry("/data/folder-b/file3.txt", 300), // different name
    ];

    let groups = find_duplicate_folders(&files, &FolderDedupConfig::default());
    assert!(groups.is_empty());
}

#[test]
fn single_file_folders_filtered_by_min_children() {
    let files = vec![
        make_entry("/data/a/only.txt", 100),
        make_entry("/data/b/only.txt", 100),
    ];

    // Default min_children=2 filters these out
    let groups = find_duplicate_folders(&files, &FolderDedupConfig::default());
    assert!(groups.is_empty());

    // With min_children=1, they're detected
    let config = FolderDedupConfig {
        min_children: 1,
        ..Default::default()
    };
    let groups = find_duplicate_folders(&files, &config);
    assert_eq!(groups.len(), 1);
}

#[test]
fn empty_input() {
    let groups = find_duplicate_folders(&[], &FolderDedupConfig::default());
    assert!(groups.is_empty());
}

#[test]
fn three_identical_folders() {
    let files = vec![
        make_entry("/a/f1.txt", 50),
        make_entry("/a/f2.txt", 50),
        make_entry("/b/f1.txt", 50),
        make_entry("/b/f2.txt", 50),
        make_entry("/c/f1.txt", 50),
        make_entry("/c/f2.txt", 50),
    ];

    let groups = find_duplicate_folders(&files, &FolderDedupConfig::default());
    assert_eq!(groups.len(), 1);
    assert_eq!(groups[0].directories.len(), 3);
}

#[test]
fn same_sizes_different_names_not_grouped() {
    let files = vec![
        make_entry("/a/alpha.txt", 100),
        make_entry("/a/beta.txt", 200),
        make_entry("/b/gamma.txt", 100), // same sizes but different names
        make_entry("/b/delta.txt", 200),
    ];

    let groups = find_duplicate_folders(&files, &FolderDedupConfig::default());
    assert!(groups.is_empty());
}

#[test]
fn min_total_size_filter() {
    let files = vec![
        make_entry("/a/f1.txt", 10),
        make_entry("/a/f2.txt", 10),
        make_entry("/b/f1.txt", 10),
        make_entry("/b/f2.txt", 10),
    ];

    let config = FolderDedupConfig {
        min_children: 2,
        min_total_size: 1000, // 20 bytes < 1000
    };
    let groups = find_duplicate_folders(&files, &config);
    assert!(groups.is_empty());
}

#[test]
fn sorted_by_wasted_size() {
    let files = vec![
        // Small duplicate pair
        make_entry("/small-a/f1.txt", 10),
        make_entry("/small-a/f2.txt", 10),
        make_entry("/small-b/f1.txt", 10),
        make_entry("/small-b/f2.txt", 10),
        // Large duplicate pair
        make_entry("/big-a/f1.txt", 10000),
        make_entry("/big-a/f2.txt", 10000),
        make_entry("/big-b/f1.txt", 10000),
        make_entry("/big-b/f2.txt", 10000),
    ];

    let groups = find_duplicate_folders(&files, &FolderDedupConfig::default());
    assert_eq!(groups.len(), 2);
    // Largest wasted first
    assert!(groups[0].total_size > groups[1].total_size);
}

#[test]
fn folder_group_lists_directories_in_path_order() {
    let files = vec![
        make_entry("/z/one.txt", 5),
        make_entry("/z/two.txt", 7),
        make_entry("/m/one.txt", 5),
        make_entry("/m/two.txt", 7),
    ];
    let groups = find_duplicate_folders(&files, &FolderDedupConfig::default());
    assert_eq!(groups.len(), 1);
    assert_eq!(groups[0].directories, vec!["/m".to_string(), "/z".to_string()]);
    assert_eq!(groups[0].file_count, 2);
    assert_eq!(groups[0].total_size, 12);
}

#[test]
fn folder_hash_ignores_file_order() {
    let files = vec![
        make_entry("/x/a.txt", 1),
        make_entry("/x/b.txt", 2),
        make_entry("/y/b.txt", 2),
        make_entry("/y/a.txt", 1),
    ];
    let groups = find_duplicate_folders(&files, &FolderDedupConfig::default());
    assert_eq!(groups.len(), 1);
    assert_eq!(groups[0].directories.len(), 2);
}

#[test]
fn nested_duplicate_trees_group_parents_and_children() {
    let files = vec![
        make_entry("/p/sub/a.txt", 3),
        make_entry("/p/sub/b.txt", 4),
        make_entry("/q/sub/a.txt", 3),
        make_entry("/q/sub/b.txt", 4),
    ];
    let groups = find_duplicate_folders(&files, &FolderDedupConfig::default());
    // `/p` and `/q` match, and so do `/p/sub` and `/q/sub`.
    assert_eq!(groups.len(), 2);
    let mut dirs: Vec<Vec<String>> = groups.iter().map(|g| g.directories.clone()).collect();
    dirs.sort();
    assert_eq!(dirs[0], vec!["/p".to_string(), "/q".to_string()]);
    assert_eq!(dirs[1], vec!["/p/sub".to_string(), "/q/sub".to_string()]);
    // Distinct hashes across groups.
    assert_ne!(groups[0].merkle_hash, groups[1].merkle_hash);
}
