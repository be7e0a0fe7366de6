use hyprdrive::indexer::error::FsIndexerError;
use hyprdrive::indexer::linux::{
    detect_in_mounts, find_mount_for_path, fid_from_path, make_fid, map_fstype, parse_mounts,
    LinuxListenerConfig,
};
use hyprdrive::indexer::linux_events::{
    join_path, parse_max_watches, InotifyState, ListenerStep, WatchEvent, IN_CREATE, IN_DELETE,
    IN_DELETE_SELF, IN_MODIFY, IN_MOVED_FROM, IN_MOVED_TO, IN_Q_OVERFLOW,
};
use hyprdrive::indexer::linux::{entry_kind, ATTR_SYMLINK};
use hyprdrive::indexer::linux_scan::reconstruct_path;
use hyprdrive::indexer::types::FilesystemKind;
use std::collections::HashMap;

const SAMPLE_PROC_MOUNTS: &str = "\
sysfs /sys sysfs rw,nosuid,nodev,noexec,relatime 0 0
proc /proc proc rw,nosuid,nodev,noexec,relatime 0 0
/dev/sda1 / ext4 rw,relatime,errors=remount-ro 0 0
/dev/sda2 /home ext4 rw,relatime 0 0
tmpfs /tmp tmpfs rw,nosuid,nodev 0 0
C:\\ /mnt/c 9p rw,noatime,dirsync,aname=drvfs 0 0
overlay /var/lib/docker/overlay2/merged overlay rw,lowerdir=... 0 0";

#[test]
fn parse_mounts_returns_correct_count() {
    let mounts = parse_mounts(SAMPLE_PROC_MOUNTS);
    assert_eq!(mounts.len(), 7);
}

#[test]
fn parse_mounts_extracts_fields_correctly() {
    let mounts = parse_mounts(SAMPLE_PROC_MOUNTS);
    let root_mount = mounts.iter().find(|m| m.mount_point == "/");
    assert!(root_mount.is_some());
    let root = root_mount.expect("checked above");
    assert_eq!(root.device, "/dev/sda1");
    assert_eq!(root.fs_type, "ext4");
    assert!(root.options.contains("relatime"));
}

#[test]
fn find_mount_longest_prefix() {
    let mounts = parse_mounts(SAMPLE_PROC_MOUNTS);
    let found = find_mount_for_path("/home/user/Documents", &mounts);
    assert!(found.is_some());
    assert_eq!(mounts[found.expect("checked above")].mount_point, "/home");
}

#[test]
fn find_mount_root_fallback() {
    let mounts = parse_mounts(SAMPLE_PROC_MOUNTS);
    let found = find_mount_for_path("/etc/config", &mounts);
    assert!(found.is_some());
    assert_eq!(mounts[found.expect("checked above")].mount_point, "/");
}

#[test]
fn find_mount_is_by_components_not_text() {
    let mounts = parse_mounts(SAMPLE_PROC_MOUNTS);
    // "/homework" is not under "/home".
    let found = find_mount_for_path("/homework/x", &mounts).expect("root matches");
    assert_eq!(mounts[found].mount_point, "/");
}

#[test]
fn map_fstype_all_linux_variants() {
    assert_eq!(map_fstype("ext4"), FilesystemKind::Ext4);
    assert_eq!(map_fstype("ext3"), FilesystemKind::Ext4);
    assert_eq!(map_fstype("ext2"), FilesystemKind::Ext4);
    assert_eq!(map_fstype("btrfs"), FilesystemKind::Btrfs);
    assert_eq!(map_fstype("xfs"), FilesystemKind::Xfs);
    assert_eq!(map_fstype("zfs"), FilesystemKind::Zfs);
    assert_eq!(map_fstype("tmpfs"), FilesystemKind::Tmpfs);
    assert_eq!(map_fstype("9p"), FilesystemKind::NineP);
    assert_eq!(map_fstype("nfs"), FilesystemKind::Nfs);
    assert_eq!(map_fstype("nfs4"), FilesystemKind::Nfs);
    assert_eq!(map_fstype("overlay"), FilesystemKind::OverlayFs);
    assert_eq!(map_fstype("fuse.sshfs"), FilesystemKind::Fuse);
    assert_eq!(map_fstype("fuse"), FilesystemKind::Fuse);
    assert_eq!(map_fstype("ntfs"), FilesystemKind::Ntfs);
    assert_eq!(map_fstype("ntfs3"), FilesystemKind::Ntfs);
    assert_eq!(map_fstype("vfat"), FilesystemKind::Fat32);
    assert_eq!(map_fstype("exfat"), FilesystemKind::ExFat);
}

#[test]
fn map_fstype_unknown() {
    assert_eq!(map_fstype("squashfs"), FilesystemKind::Unknown);
    assert_eq!(map_fstype(""), FilesystemKind::Unknown);
}

#[test]
fn detect_in_mounts_outcomes() {
    let k = detect_in_mounts("/home/a", "/home/a", SAMPLE_PROC_MOUNTS, false);
    assert!(matches!(k, Ok(FilesystemKind::Ext4)));
    let p = detect_in_mounts("/proc/1", "/proc/1", SAMPLE_PROC_MOUNTS, true);
    assert!(matches!(p, Err(FsIndexerError::PseudoFilesystem { .. })));
    let none = detect_in_mounts("/x", "/x", "", false);
    assert!(matches!(none, Err(FsIndexerError::DetectionFailed { .. })));
}

#[test]
fn config_defaults() {
    let config = LinuxListenerConfig::default();
    assert_eq!(config.channel_capacity, 10_000);
    assert!(config.recursive);
}

#[test]
fn fid_from_path_deterministic() {
    let fid1 = fid_from_path("/tmp/test.txt");
    let fid2 = fid_from_path("/tmp/test.txt");
    assert_eq!(fid1, fid2, "same path should produce same fid");
}

#[test]
fn fid_from_path_different() {
    let fid1 = fid_from_path("/tmp/a.txt");
    let fid2 = fid_from_path("/tmp/b.txt");
    assert_ne!(fid1, fid2, "different paths should produce different fids");
}

#[test]
fn make_fid_deterministic() {
    let fid1 = make_fid(1, 42);
    let fid2 = make_fid(1, 42);
    assert_eq!(fid1, fid2, "same inputs should produce same fid");
}

#[test]
fn make_fid_preserves_64bit_inodes() {
    // Two inodes that differ only in upper 32 bits — must NOT collide
    let fid1 = make_fid(1, 0x1_0000_0001);
    let fid2 = make_fid(1, 0x2_0000_0001);
    assert_ne!(fid1, fid2, "64-bit inodes differing in upper bits must not collide");
}

#[test]
fn make_fid_different_devices() {
    let fid1 = make_fid(1, 100);
    let fid2 = make_fid(2, 100);
    assert_ne!(fid1, fid2, "same inode on different devices should differ");
}

#[test]
fn make_fid_device_zero_is_inode() {
    assert_eq!(make_fid(0, 12345), 12345);
}

fn event(wd: i32, mask: u32, cookie: u32, name: Option<&str>) -> WatchEvent {
    WatchEvent { wd, mask, cookie, name: name.map(String::from) }
}

fn listener() -> InotifyState {
    let mut s = InotifyState::new("/data".to_string(), true);
    s.add_watch(1, "/data".to_string());
    s.add_watch(2, "/data/sub".to_string());
    s
}

#[test]
fn join_path_adds_one_separator() {
    assert_eq!(join_path("/data", "a.txt"), "/data/a.txt");
    assert_eq!(join_path("/data/", "a.txt"), "/data/a.txt");
    assert_eq!(join_path("", "a.txt"), "a.txt");
    assert_eq!(join_path("/data", "/abs"), "/abs");
}

#[test]
fn overflow_asks_for_rescan() {
    let mut s = listener();
    let steps = s.plan_event(&event(-1, IN_Q_OVERFLOW, 0, None));
    assert_eq!(steps.len(), 1);
    match &steps[0] {
        ListenerStep::Rescan { volume, reason } => {
            assert_eq!(volume, "/data");
            assert_eq!(reason, "inotify queue overflow");
        }
        other => panic!("unexpected {other:?}"),
    }
}

#[test]
fn unknown_watch_is_ignored() {
    let mut s = listener();
    assert!(s.plan_event(&event(99, IN_CREATE, 0, Some("x"))).is_empty());
}

#[test]
fn create_in_watched_dir_stats_full_path() {
    let mut s = listener();
    let steps = s.plan_event(&event(2, IN_CREATE, 0, Some("new.txt")));
    assert_eq!(steps.len(), 1);
    match &steps[0] {
        ListenerStep::Create { path, name, watch_if_dir } => {
            assert_eq!(path, "/data/sub/new.txt");
            assert_eq!(name, "new.txt");
            assert!(*watch_if_dir);
        }
        other => panic!("unexpected {other:?}"),
    }
}

#[test]
fn delete_reports_hash_of_path() {
    let mut s = listener();
    let steps = s.plan_event(&event(1, IN_DELETE, 0, Some("gone")));
    match &steps[..] {
        [ListenerStep::Delete { fid }] => assert_eq!(*fid, fid_from_path("/data/gone")),
        other => panic!("unexpected {other:?}"),
    }
}

#[test]
fn modify_stats_path() {
    let mut s = listener();
    let steps = s.plan_event(&event(1, IN_MODIFY, 0, Some("f")));
    match &steps[..] {
        [ListenerStep::Modify { path }] => assert_eq!(path, "/data/f"),
        other => panic!("unexpected {other:?}"),
    }
}

#[test]
fn delete_self_forgets_watch() {
    let mut s = listener();
    assert_eq!(s.watch_count(), 2);
    assert!(s.plan_event(&event(2, IN_DELETE_SELF, 0, None)).is_empty());
    assert_eq!(s.watch_count(), 1);
    assert!(s.plan_event(&event(2, IN_CREATE, 0, Some("x"))).is_empty());
}

#[test]
fn paired_move_becomes_move() {
    let mut s = listener();
    assert!(s.plan_event(&event(1, IN_MOVED_FROM, 7, Some("old"))).is_empty());
    let steps = s.plan_event(&event(2, IN_MOVED_TO, 7, Some("new")));
    match &steps[..] {
        [ListenerStep::Move { path, name }] => {
            assert_eq!(path, "/data/sub/new");
            assert_eq!(name, "new");
        }
        other => panic!("unexpected {other:?}"),
    }
    // Nothing left to report at the end of the batch.
    assert!(s.end_batch().is_empty());
}

#[test]
fn unpaired_moves() {
    let mut s = listener();
    // A MOVED_TO without its first half is a creation, with no new watch.
    let steps = s.plan_event(&event(1, IN_MOVED_TO, 5, Some("in")));
    match &steps[..] {
        [ListenerStep::Create { path, watch_if_dir, .. }] => {
            assert_eq!(path, "/data/in");
            assert!(!*watch_if_dir);
        }
        other => panic!("unexpected {other:?}"),
    }
    // A MOVED_FROM without its second half is a deletion at the end of the batch.
    assert!(s.plan_event(&event(1, IN_MOVED_FROM, 6, Some("out"))).is_empty());
    let flushed = s.end_batch();
    match &flushed[..] {
        [ListenerStep::Delete { fid }] => assert_eq!(*fid, fid_from_path("/data/out")),
        other => panic!("unexpected {other:?}"),
    }
    assert!(s.end_batch().is_empty());
}

#[test]
fn watch_failures() {
    let empty = InotifyState::new("/r".to_string(), true);
    assert!(matches!(
        empty.watch_failed(false, "denied".to_string(), None),
        Some(FsIndexerError::FanotifyError { .. })
    ));
    let s = listener();
    assert!(s.watch_failed(false, "denied".to_string(), None).is_none());
    match s.watch_failed(true, "full".to_string(), Some(8192)) {
        Some(FsIndexerError::InotifyWatchLimit { current, max }) => {
            assert_eq!(current, 2);
            assert_eq!(max, 8192);
        }
        other => panic!("unexpected {other:?}"),
    }
    match empty.watch_failed(true, "full".to_string(), None) {
        Some(FsIndexerError::InotifyWatchLimit { current, max }) => {
            assert_eq!(current, 0);
            assert_eq!(max, 0);
        }
        other => panic!("unexpected {other:?}"),
    }
}

#[test]
fn max_watches_text() {
    assert_eq!(parse_max_watches("8192\n"), Some(8192));
    assert_eq!(parse_max_watches("  +42 "), Some(42));
    assert_eq!(parse_max_watches("abc"), None);
    assert_eq!(parse_max_watches(""), None);
    assert_eq!(parse_max_watches("99999999999999999999999999"), None);
}

fn linux_map(entries: &[(u64, u64, &str)]) -> HashMap<u64, (u64, String)> {
    entries.iter().map(|(f, p, n)| (*f, (*p, n.to_string()))).collect()
}

#[test]
fn linux_reconstruct_skips_root_name() {
    let m = linux_map(&[(1, 1, "scanroot"), (2, 1, "docs"), (3, 2, "a.txt")]);
    assert_eq!(reconstruct_path(3, &m, "/home/u"), Some("/home/u/docs/a.txt".to_string()));
    assert_eq!(reconstruct_path(1, &m, "/home/u"), Some("/home/u".to_string()));
}

#[test]
fn linux_reconstruct_survives_cycles_and_orphans() {
    let cyc = linux_map(&[(1, 2, "a"), (2, 1, "b")]);
    // Walk: a, b, then 1 again → names [a, b] → topmost dropped.
    assert_eq!(reconstruct_path(1, &cyc, "/r"), Some("/r/a".to_string()));
    let orphan = linux_map(&[(5, 9, "lost")]);
    assert_eq!(reconstruct_path(5, &orphan, "/r"), Some("/r".to_string()));
    assert_eq!(reconstruct_path(77, &orphan, "/r"), Some("/r".to_string()));
}

#[test]
fn walk_marks_symlinks_and_never_as_directories() {
    assert_eq!(entry_kind(false, true), (false, ATTR_SYMLINK));
    assert_eq!(entry_kind(true, true), (false, 1));
    assert_eq!(entry_kind(true, false), (true, 0));
    assert_eq!(entry_kind(false, false), (false, 0));
}
