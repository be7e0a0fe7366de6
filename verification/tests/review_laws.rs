use hyprdrive::dedup::file_entry::FileEntry;
use hyprdrive::indexer::linux::{enrich_entry, EnrichStats};
use hyprdrive::dedup::fuzzy::normalize_name;
use hyprdrive::indexer::mft::{build_parent_map, reconstruct_path, reconstruct_paths_cached, TopoEntry};
use hyprdrive::indexer::types::FilesystemKind;
use hyprdrive::indexer::windows::{volumes_from, DriveType, ListenerConfig};
use hyprdrive::ipc::{frame_payload, parse_frame};
use hyprdrive::pipeline::mime_from_extension;

fn topo(fid: u64, parent_fid: u64, name: &str) -> TopoEntry {
    TopoEntry { fid, parent_fid, name: name.to_string(), is_dir: false, attributes: 0 }
}

#[test]
fn volumes_from_mask_codes_and_distros() {
    // Bits 0 (A) and 2 (C).
    let mask = 0b101;
    let vols = volumes_from(mask, &[2, 3], &[None, Some(FilesystemKind::Ntfs)], &["Ubuntu".to_string()]);
    assert_eq!(vols.len(), 3);
    assert_eq!((vols[0].path.as_str(), vols[0].volume_id.as_str()), ("A:\\", "A"));
    assert_eq!(vols[0].drive_type, DriveType::Removable);
    assert_eq!(vols[0].fs_kind, None);
    assert_eq!((vols[1].path.as_str(), vols[1].volume_id.as_str()), ("C:\\", "C"));
    assert_eq!(vols[1].drive_type, DriveType::Fixed);
    assert_eq!(vols[1].fs_kind, Some(FilesystemKind::Ntfs));
    assert_eq!(vols[2].path, "\\\\wsl.localhost\\Ubuntu\\");
    assert_eq!(vols[2].volume_id, "wsl:Ubuntu");
    assert_eq!(vols[2].drive_type, DriveType::Wsl);
    assert!(vols.iter().all(|d| !d.path.is_empty() && !d.volume_id.is_empty()));
    assert!(volumes_from(0, &[], &[], &[]).is_empty());
}

#[test]
fn listener_config_clones() {
    let c = ListenerConfig::default();
    let d = c.clone();
    assert_eq!(d.poll_interval, c.poll_interval);
    assert_eq!(d.channel_capacity, c.channel_capacity);
}

#[test]
fn mime_answers_follow_the_lowercased_extension() {
    assert_eq!(mime_from_extension("/a/x.PnG"), mime_from_extension("/b/y.png"));
    assert_eq!(mime_from_extension("/a/noext"), None);
    for p in ["a.pdf", "a.txt", "a.jpg", "a.mp4", "a.mp3", "a.woff2", "a.rs", "a.zip"] {
        let m = mime_from_extension(p).expect("known");
        assert!(["application/", "text/", "image/", "video/", "audio/", "font/"].iter().any(|f| m.starts_with(f)));
    }
}

#[test]
fn normalize_laws_on_examples() {
    assert_eq!(normalize_name("Report (1).pdf"), normalize_name("REPORT (1).PDF"));
    assert_eq!(normalize_name("notes.md"), normalize_name("notes.txt"));
    let r = normalize_name("  Copy of Budget (2) (3) .xlsx");
    assert_eq!(r, r.trim());
    assert!(!r.chars().any(|c| c.is_ascii_uppercase()));
    assert!(!r.ends_with(')'));
}

#[test]
fn frames_read_back_in_order() {
    let mut buf = Vec::new();
    for m in [b"one".to_vec(), b"".to_vec(), b"three".to_vec()] {
        buf.extend(frame_payload(&m).unwrap());
    }
    let mut at = 0;
    let mut got = Vec::new();
    while at < buf.len() {
        let (p, n) = parse_frame(&buf[at..]).unwrap();
        got.push(p);
        at += n;
    }
    assert_eq!(got, vec![b"one".to_vec(), b"".to_vec(), b"three".to_vec()]);
    assert!(parse_frame(&[0u8; 2]).is_err());
    let mut short = 100u32.to_le_bytes().to_vec();
    short.extend([0u8; 10]);
    assert!(parse_frame(&short).is_err());
}

#[test]
fn reconstruct_path_fails_without_root_then_succeeds_with_it() {
    let entries = vec![topo(100, 5, "Users"), topo(200, 100, "report.pdf")];
    let map = build_parent_map(&entries);
    assert_eq!(reconstruct_path(200, &map, "C:\\"), None);
    assert!(reconstruct_paths_cached(&[200], &map, "C:\\").is_empty());
    let mut with_root = entries.clone();
    with_root.push(topo(5, 5, ""));
    let map = build_parent_map(&with_root);
    let lone = reconstruct_path(200, &map, "C:\\");
    assert_eq!(lone, Some("C:\\Users\\report.pdf".to_string()));
    let cached = reconstruct_paths_cached(&[200, 100], &map, "C:\\");
    assert_eq!(cached.get(&200), lone.as_ref());
    assert_eq!(cached.get(&100).cloned(), reconstruct_path(100, &map, "C:\\"));
}

#[test]
fn paths_follow_std_components() {
    let depth = |p: &str| FileEntry::from_metadata(p.to_string(), 0, 0).path_depth();
    for p in ["a/./b", "./a", "/a/./b", "a/b/.", "/", "a/../b"] {
        assert_eq!(depth(p), std::path::Path::new(p).components().count(), "{p}");
    }
    for p in ["a/..", "a/.", "/x/y.txt", ".", "a/./"] {
        let name = FileEntry::from_metadata(p.to_string(), 0, 0).name;
        let std_name = std::path::Path::new(p).file_name().map(|n| n.to_string_lossy().into_owned()).unwrap_or_default();
        assert_eq!(name, std_name, "{p}");
    }
}

#[test]
fn enrich_entry_counts_each_outcome() {
    let mut stats = EnrichStats { enriched: 0, skipped: 0 };
    assert_eq!(enrich_entry(&mut stats, true, Some((5, 1))), None);
    assert_eq!(enrich_entry(&mut stats, false, Some((5, 8))), Some((5, 4096)));
    assert_eq!(enrich_entry(&mut stats, false, None), None);
    assert_eq!((stats.enriched, stats.skipped), (1, 1));
}

#[test]
fn wsl_output_decodes_utf16_like_std() {
    let units: Vec<u16> = vec![0x55, 0x62, 0xD83D, 0xDE00, 0x0D, 0x0A, 0xD800, 0x78, 0x0D, 0x0A, 0xDC00, 0x0A];
    let raw: Vec<u8> = units.iter().flat_map(|u| u.to_le_bytes()).collect();
    let expected: Vec<String> = String::from_utf16_lossy(&units)
        .lines()
        .map(|l| l.trim().trim_matches('\0').trim_matches('\u{feff}').trim().to_string())
        .filter(|l| !l.is_empty())
        .collect();
    assert_eq!(hyprdrive::indexer::windows::parse_wsl_output(&raw), expected);
    assert_eq!(expected, vec!["Ub\u{1F600}".to_string(), "\u{FFFD}x".to_string(), "\u{FFFD}".to_string()]);
}

#[test]
fn parent_path_matches_std() {
    for p in [
        "/v/new.txt", "/v//new", "/v/new/", "a", "", "/", "./a", ".", "./", "a/./b", "a/b/.", "a/..", "/a",
        "//a", "a//", "/.", "a/b/./", "../x", "..", "x/.", "./.", "a/.b",
    ] {
        let got = hyprdrive::path::parent_path(&p.chars().collect::<Vec<char>>()).map(|v| v.into_iter().collect::<String>());
        let std_parent = std::path::Path::new(p).parent().map(|q| q.to_string_lossy().into_owned());
        assert_eq!(got, std_parent, "{p:?}");
    }
}
