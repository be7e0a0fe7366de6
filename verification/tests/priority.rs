use hyprdrive::indexer::priority::{classify_priority, sort_by_priority, ScanPriority};

#[test]
fn desktop_is_highest_priority() {
    let p = classify_priority("C:\\Users\\alice\\Desktop");
    assert_eq!(p, ScanPriority::USER_FACING());
}

#[test]
fn documents_is_highest_priority() {
    let p = classify_priority("/home/alice/Documents");
    assert_eq!(p, ScanPriority::USER_FACING());
}

#[test]
fn downloads_is_highest_priority() {
    let p = classify_priority("/home/alice/Downloads");
    assert_eq!(p, ScanPriority::USER_FACING());
}

#[test]
fn pictures_is_highest_priority() {
    let p = classify_priority("C:\\Users\\alice\\Pictures");
    assert_eq!(p, ScanPriority::USER_FACING());
}

#[test]
fn music_is_common_priority() {
    let p = classify_priority("/home/alice/Music");
    assert_eq!(p, ScanPriority::COMMON());
}

#[test]
fn node_modules_is_bulk_noise() {
    let p = classify_priority("/home/alice/projects/my-app/node_modules");
    assert_eq!(p, ScanPriority::BULK_NOISE());
}

#[test]
fn git_dir_is_bulk_noise() {
    let p = classify_priority("/home/alice/projects/repo/.git");
    assert_eq!(p, ScanPriority::BULK_NOISE());
}

#[test]
fn rust_target_is_bulk_noise() {
    let p = classify_priority("D:\\Projects\\myapp\\target");
    assert_eq!(p, ScanPriority::BULK_NOISE());
}

#[test]
fn pycache_is_bulk_noise() {
    let p = classify_priority("/home/alice/project/__pycache__");
    assert_eq!(p, ScanPriority::BULK_NOISE());
}

#[test]
fn appdata_is_hidden() {
    let p = classify_priority("C:\\Users\\alice\\AppData\\Local\\Temp");
    assert_eq!(p, ScanPriority::HIDDEN());
}

#[test]
fn program_files_is_system() {
    let p = classify_priority("C:\\Program Files\\Git");
    assert_eq!(p, ScanPriority::SYSTEM());
}

#[test]
fn unknown_path_gets_default() {
    let p = classify_priority("/mnt/external/random-dir");
    assert_eq!(p, ScanPriority::DEFAULT());
}

#[test]
fn sort_by_priority_orders_correctly() {
    let mut paths: Vec<String> = vec![
        "/home/alice/projects/app/node_modules".to_string(),
        "/home/alice/Documents".to_string(),
        "/usr/local/bin".to_string(),
        "/home/alice/Music".to_string(),
        "/home/alice/.config/nvim".to_string(),
        "/home/alice/Downloads".to_string(),
    ];

    sort_by_priority(&mut paths);

    assert_eq!(paths[0], "/home/alice/Documents");
    assert_eq!(paths[1], "/home/alice/Downloads");
    assert_eq!(paths[2], "/home/alice/Music");
    assert_eq!(paths[3], "/usr/local/bin");
    assert_eq!(paths[4], "/home/alice/.config/nvim");
    assert_eq!(paths[5], "/home/alice/projects/app/node_modules");
}

#[test]
fn sort_is_stable_within_tier() {
    let mut paths: Vec<String> = vec![
        "/home/alice/Downloads".to_string(),
        "/home/alice/Desktop".to_string(),
        "/home/alice/Documents".to_string(),
    ];

    sort_by_priority(&mut paths);

    // All tier 0, sorted alphabetically
    assert_eq!(paths[0], "/home/alice/Desktop");
    assert_eq!(paths[1], "/home/alice/Documents");
    assert_eq!(paths[2], "/home/alice/Downloads");
}

#[test]
fn priority_ordering() {
    assert!(ScanPriority::USER_FACING() < ScanPriority::COMMON());
    assert!(ScanPriority::COMMON() < ScanPriority::SYSTEM());
    assert!(ScanPriority::SYSTEM() < ScanPriority::HIDDEN());
    assert!(ScanPriority::HIDDEN() < ScanPriority::BULK_NOISE());
}

#[test]
fn priority_values() {
    assert_eq!(ScanPriority::USER_FACING().value(), 0);
    assert_eq!(ScanPriority::COMMON().value(), 1);
    assert_eq!(ScanPriority::BULK_NOISE().value(), 4);
}

#[test]
fn sort_keeps_every_path() {
    let mut paths: Vec<String> = vec!["/b".to_string(), "/a".to_string(), "/a".to_string()];
    sort_by_priority(&mut paths);
    assert_eq!(paths, vec!["/a".to_string(), "/a".to_string(), "/b".to_string()]);
}
