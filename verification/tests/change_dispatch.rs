use hyprdrive::pipeline::changes::{
    partition_changes, settle_creates, settle_modify, settle_orphans, ChangeEvent, ChangeProcessor, MoveAnswer,
    StoreAnswer,
};
use hyprdrive::pipeline::{location_id_for_entry, ChangeStats};

fn stats() -> ChangeStats {
    ChangeStats::default()
}

#[test]
fn partition_splits_by_kind() {
    let changes = vec![
        ChangeEvent::Modified { fid: 1, new_size: 10 },
        ChangeEvent::Created { fid: 2, parent_fid: 1, name: "a".to_string(), full_path: String::new() },
        ChangeEvent::Deleted { fid: 3, path: None },
        ChangeEvent::Moved { fid: 4, new_parent_fid: 1, new_name: "b".to_string() },
        ChangeEvent::Created { fid: 5, parent_fid: 1, name: "c".to_string(), full_path: "/x/c".to_string() },
    ];
    let b = partition_changes(&changes);
    assert_eq!(b.creates, vec![1, 4]);
    assert_eq!(b.deletes, vec![2]);
    assert_eq!(b.moves, vec![3]);
    assert_eq!(b.modifies, vec![0]);
    assert!(!b.rescan_needed);
    let b = partition_changes(&[ChangeEvent::FullRescanNeeded]);
    assert!(b.rescan_needed);
    assert!(b.creates.is_empty());
}

#[test]
fn creates_are_placed_in_order() {
    let mut p = ChangeProcessor::new("vol".to_string());
    assert_eq!(p.volume_id(), "vol");
    p.seed_fid_map(&[(1, "/v".to_string())]);
    let changes = vec![
        ChangeEvent::Created { fid: 2, parent_fid: 1, name: "dir".to_string(), full_path: String::new() },
        // Its parent was placed just before.
        ChangeEvent::Created { fid: 3, parent_fid: 2, name: "f.txt".to_string(), full_path: String::new() },
        // Unknown parent and no path: an error.
        ChangeEvent::Created { fid: 4, parent_fid: 99, name: "g".to_string(), full_path: String::new() },
        ChangeEvent::Modified { fid: 1, new_size: 0 },
        ChangeEvent::Created { fid: 5, parent_fid: 99, name: "h".to_string(), full_path: "/w/h".to_string() },
    ];
    let mut s = stats();
    let placed = p.place_creates(&changes, &mut s);
    assert_eq!(
        placed,
        vec![(0, "/v/dir".to_string()), (1, "/v/dir/f.txt".to_string()), (4, "/w/h".to_string())]
    );
    assert_eq!(s.errors, 1);
    assert_eq!(p.get_path(3), Some("/v/dir/f.txt".to_string()));
    assert_eq!(p.get_path(4), None);
    settle_creates(&mut s, placed.len(), true);
    assert_eq!(s.created, 3);
    settle_creates(&mut s, 2, false);
    assert_eq!(s.created, 3);
    assert_eq!(s.errors, 3);
}

#[test]
fn deletes_fall_back_to_the_path() {
    let mut p = ChangeProcessor::new("vol".to_string());
    p.seed_fid_map(&[(7, "/v/a".to_string()), (8, "/v/b".to_string())]);
    let mut s = stats();
    let mut orphans: Vec<String> = Vec::new();
    // Found by fid.
    p.settle_delete(&mut s, &mut orphans, 7, Some(StoreAnswer::Removed("obj1".to_string())), None);
    assert_eq!(s.deleted, 1);
    assert_eq!(orphans, vec!["obj1".to_string()]);
    assert_eq!(p.get_path(7), None);
    // Not found by fid, found by path.
    let path = Some("/v/b".to_string());
    assert!(hyprdrive::pipeline::changes::path_lookup_needed(&Some(StoreAnswer::NotFound), &path));
    assert!(!hyprdrive::pipeline::changes::path_lookup_needed(&Some(StoreAnswer::Failed), &path));
    assert!(!hyprdrive::pipeline::changes::path_lookup_needed(&None, &None));
    p.settle_delete(&mut s, &mut orphans, 8, Some(StoreAnswer::NotFound), Some(StoreAnswer::Removed("obj2".to_string())));
    assert_eq!(s.deleted, 2);
    assert_eq!(orphans.len(), 2);
    assert_eq!(p.get_path(8), None);
    // Found nowhere: nothing counts.
    p.settle_delete(&mut s, &mut orphans, 9, None, Some(StoreAnswer::NotFound));
    assert_eq!((s.deleted, s.errors), (2, 0));
    // A failed lookup by fid is an error, whatever the path says.
    p.settle_delete(&mut s, &mut orphans, 9, Some(StoreAnswer::Failed), Some(StoreAnswer::Removed("x".to_string())));
    assert_eq!((s.deleted, s.errors), (2, 1));
    assert_eq!(orphans.len(), 2);
    settle_orphans(&mut s, orphans.len(), true);
    assert_eq!(s.errors, 1);
    settle_orphans(&mut s, orphans.len(), false);
    assert_eq!(s.errors, 3);
}

#[test]
fn moves_and_modifies() {
    let mut p = ChangeProcessor::new("vol".to_string());
    p.seed_fid_map(&[(1, "/v".to_string()), (2, "/v/old.txt".to_string()), (3, "/".to_string())]);
    let mut s = stats();
    let plan = p.plan_move(&mut s, 2, 1, "new.TXT").expect("plan");
    assert_eq!(plan.fid_key, 2);
    assert_eq!(plan.new_path, "/v/new.TXT");
    assert_eq!(plan.new_name, "new.TXT");
    assert_eq!(plan.extension, Some("TXT".to_string()));
    assert_eq!(plan.location_id, location_id_for_entry("vol", b"/v/new.TXT"));
    assert_eq!(plan.parent_location_id, Some(location_id_for_entry("vol", b"/v")));
    assert!(p.plan_move(&mut s, 2, 42, "x").is_none());
    assert!(p.plan_move(&mut s, u64::MAX, 1, "x").is_none());
    assert_eq!(s.errors, 2);
    p.settle_move(&mut s, 2, plan.new_path.clone(), MoveAnswer::Relocated);
    assert_eq!(s.moved, 1);
    assert_eq!(p.get_path(2), Some("/v/new.TXT".to_string()));
    p.settle_move(&mut s, 2, "/elsewhere".to_string(), MoveAnswer::NotFound);
    p.settle_move(&mut s, 2, "/elsewhere".to_string(), MoveAnswer::Failed);
    assert_eq!((s.moved, s.errors), (1, 3));
    assert_eq!(p.get_path(2), Some("/v/new.TXT".to_string()));

    let m = p.plan_modify(&mut s, 2, 512).expect("plan");
    assert_eq!((m.fid, m.parent_fid, m.size, m.allocated_size, m.attributes), (2, 0, 512, 512, 0));
    assert_eq!(m.path, "/v/new.TXT");
    assert_eq!(m.name, "new.TXT");
    // A volume root has no file name; an unknown fid has no path.
    assert!(p.plan_modify(&mut s, 3, 1).is_none());
    assert!(p.plan_modify(&mut s, 77, 1).is_none());
    assert_eq!(s.errors, 5);
    settle_modify(&mut s, true);
    settle_modify(&mut s, false);
    assert_eq!((s.modified, s.errors), (1, 6));
    assert_eq!(p.resolve_path(1, "z"), Some("/v/z".to_string()));
}
