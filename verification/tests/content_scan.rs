use hyprdrive::dedup::file_entry::FileEntry;
use hyprdrive::dedup::grouping::{DupeGroup, MatchKind};
use hyprdrive::dedup::scanner::{
    all_pairs, content_pairs, count_in_size_range, group_by_size, hash_groups, report_totals,
};

fn make_entry(name: &str, size: u64) -> FileEntry {
    FileEntry::new(
        format!("/test/{name}"),
        size,
        name.to_string(),
        name.split('.').last().map(String::from),
        0,
        None,
    )
}

#[test]
fn group_by_size_basic() {
    let files = vec![
        make_entry("a.txt", 100),
        make_entry("b.txt", 100),
        make_entry("c.txt", 200),
        make_entry("d.txt", 200),
        make_entry("e.txt", 300),
    ];
    let buckets = group_by_size(&files, 1);
    assert_eq!(buckets.len(), 2); // 100 and 200
    assert_eq!(buckets[&100].len(), 2);
    assert_eq!(buckets[&200].len(), 2);
    assert!(!buckets.contains_key(&300)); // unique size
}

#[test]
fn group_by_size_all_unique() {
    let files = vec![
        make_entry("a.txt", 100),
        make_entry("b.txt", 200),
        make_entry("c.txt", 300),
    ];
    let buckets = group_by_size(&files, 1);
    assert!(buckets.is_empty());
}

#[test]
fn group_by_size_min_size_filter() {
    let files = vec![
        make_entry("tiny.txt", 50),
        make_entry("small.txt", 50),
        make_entry("big.txt", 1000),
        make_entry("big2.txt", 1000),
    ];
    let buckets = group_by_size(&files, 100);
    assert_eq!(buckets.len(), 1); // only 1000
    assert!(!buckets.contains_key(&50));
}

#[test]
fn group_by_size_empty() {
    let files: Vec<FileEntry> = Vec::new();
    let buckets = group_by_size(&files, 1);
    assert!(buckets.is_empty());
}

#[test]
fn group_by_size_keeps_positions_in_order() {
    let files = vec![
        make_entry("a.txt", 7),
        make_entry("b.txt", 9),
        make_entry("c.txt", 7),
        make_entry("d.txt", 7),
    ];
    let buckets = group_by_size(&files, 0);
    let b = &buckets[&7];
    let idx: Vec<usize> = b.iter().map(|(i, _)| *i).collect();
    assert_eq!(idx, vec![0, 2, 3]);
    assert_eq!(b[1].1.name, "c.txt");
}

#[test]
fn hash_groups_split_by_hash_and_skip_failures() {
    let h1 = [1u8; 32];
    let h2 = [2u8; 32];
    let members = vec![10, 11, 12, 13, 14];
    let hashes = vec![Some(h1), Some(h2), None, Some(h1), Some(h2)];
    let groups = hash_groups(&members, &hashes);
    assert_eq!(groups.len(), 2);
    assert_eq!(groups[0].0, h1);
    assert_eq!(groups[0].1, vec![10, 13]);
    assert_eq!(groups[1].0, h2);
    assert_eq!(groups[1].1, vec![11, 14]);
}

#[test]
fn all_pairs_of_three() {
    let pairs = all_pairs(&[4, 5, 6]);
    assert_eq!(
        pairs,
        vec![
            (4, 5, MatchKind::Content),
            (4, 6, MatchKind::Content),
            (5, 6, MatchKind::Content)
        ]
    );
    assert!(all_pairs(&[1]).is_empty());
}

#[test]
fn content_pairs_only_between_equal_hashes() {
    let a = [0xAAu8; 32];
    let b = [0xBBu8; 32];
    let members = vec![0, 1, 2, 3];
    let full = vec![Some(a), Some(b), Some(a), None];
    let pairs = content_pairs(&members, &full);
    assert_eq!(pairs, vec![(0, 2, MatchKind::Content)]);
}

#[test]
fn count_in_size_range_bounds() {
    let files = vec![make_entry("a", 0), make_entry("b", 5), make_entry("c", 10), make_entry("d", 20)];
    assert_eq!(count_in_size_range(&files, 1, None), 3);
    assert_eq!(count_in_size_range(&files, 1, Some(10)), 2);
    assert_eq!(count_in_size_range(&files, 0, Some(0)), 1);
}

#[test]
fn report_totals_sum_groups() {
    let g1 = DupeGroup {
        reference: make_entry("r", 10),
        duplicates: vec![make_entry("d1", 10), make_entry("d2", 10)],
        match_kind: MatchKind::Content,
        total_wasted_bytes: 20,
    };
    let g2 = DupeGroup {
        reference: make_entry("s", 3),
        duplicates: vec![make_entry("e1", 3)],
        match_kind: MatchKind::Content,
        total_wasted_bytes: 3,
    };
    assert_eq!(report_totals(&[g1, g2]), (23, 3));
    assert_eq!(report_totals(&[]), (0, 0));
}
