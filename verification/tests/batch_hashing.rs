use hyprdrive::pipeline::batch_hash::{
    assemble_batch, cache_inserts, cache_key_parts, close_batch, count_row, directory_id, empty_file_id, files_to_read,
    batch_to_hash, not_cancelled, settle_upgrade_batch, HashInput, RowOutcome, UpgradeCounts,
};
use hyprdrive::pipeline::plan::{tally_batch, PipelineTotals};
use hyprdrive::pipeline::rows::{build_rows, location_ids, RowInput};
use hyprdrive::pipeline::{location_id_for_entry, BackgroundHashResult, PipelineConfig};

fn file(size: u64, path: &str) -> HashInput {
    HashInput { is_dir: false, size, path_bytes: path.as_bytes().to_vec(), cached: None }
}

fn dir(path: &str) -> HashInput {
    HashInput { is_dir: true, size: 0, path_bytes: path.as_bytes().to_vec(), cached: None }
}

#[test]
fn batch_empty() {
    assert!(files_to_read(&[]).is_empty());
    let result = assemble_batch(&[], &[]);
    assert!(result.results.is_empty());
    assert_eq!(result.cache_hits, 0);
    assert_eq!(result.hashed, 0);
}

#[test]
fn batch_directory_skips_io() {
    let entries = vec![dir("/test/mydir")];
    assert!(files_to_read(&entries).is_empty());
    let result = assemble_batch(&entries, &[]);
    assert_eq!(result.results.len(), 1);
    assert!(result.results[0].synthetic);
    assert!(!result.results[0].cached);
    assert_eq!(result.hashed, 0);
    assert_eq!(result.results[0].object_id, *blake3::hash(b"dir:/test/mydir").as_bytes());
    assert_eq!(directory_id(b"/test/mydir"), *blake3::hash(b"dir:/test/mydir").as_bytes());
}

#[test]
fn batch_zero_byte_no_io() {
    let entries = vec![file(0, "/t/empty.txt")];
    assert!(files_to_read(&entries).is_empty());
    let result = assemble_batch(&entries, &[]);
    assert_eq!(result.results.len(), 1);
    assert_eq!(result.results[0].object_id, *blake3::hash(&[]).as_bytes());
    assert_eq!(empty_file_id(), *blake3::hash(&[]).as_bytes());
    assert_eq!(result.hashed, 1);
}

#[test]
fn batch_missing_file_skipped() {
    let entries = vec![file(100, "/nonexistent/file.txt")];
    assert_eq!(files_to_read(&entries), vec![0]);
    let result = assemble_batch(&entries, &[Err("not found".to_string())]);
    assert_eq!(result.skipped, 1);
    assert_eq!(result.errors.len(), 1);
    assert_eq!(result.errors[0], (0, "not found".to_string()));
    assert!(result.results.is_empty());
}

#[test]
fn batch_mixed_files_and_dirs() {
    let entries = vec![dir("/d"), file(7, "/d/file.txt")];
    assert_eq!(files_to_read(&entries), vec![1]);
    let content = *blake3::hash(b"content").as_bytes();
    let result = assemble_batch(&entries, &[Ok(content)]);
    assert_eq!(result.results.len(), 2);
    assert_eq!(result.hashed, 1);
    assert_eq!(result.results[1].index, 1);
    assert_eq!(result.results[1].object_id, content);
}

#[test]
fn batch_cache_hit_needs_no_read() {
    let cached = [7u8; 32];
    let mut hit = file(5, "/t/a.txt");
    hit.cached = Some(cached);
    let entries = vec![hit, file(3, "/t/b.txt"), file(4, "/t/c.txt")];
    assert_eq!(files_to_read(&entries), vec![1, 2]);
    let result = assemble_batch(&entries, &[Err("gone".to_string()), Ok([1u8; 32])]);
    assert_eq!(result.cache_hits, 1);
    assert_eq!(result.hashed, 1);
    assert_eq!(result.skipped, 1);
    assert_eq!(result.results.len(), 2);
    assert!(result.results[0].cached);
    assert_eq!(result.results[0].object_id, cached);
    assert_eq!((result.results[1].index, result.results[1].object_id), (2, [1u8; 32]));
    assert_eq!(result.errors, vec![(1, "gone".to_string())]);
}

#[test]
fn background_hasher_counts_and_stops() {
    // Cancellation is checked before the fetch.
    assert!(not_cancelled(false));
    assert!(!not_cancelled(true));
    assert!(batch_to_hash(Some(3)));
    assert!(!batch_to_hash(Some(0)));
    assert!(!batch_to_hash(None));

    let mut totals = BackgroundHashResult { upgraded: 0, errors: 0, unchanged: 0 };
    let mut batch = UpgradeCounts { upgraded: 0, errors: 0 };
    count_row(&mut batch, &mut totals, RowOutcome::Upgraded);
    count_row(&mut batch, &mut totals, RowOutcome::Unreadable);
    count_row(&mut batch, &mut totals, RowOutcome::UpgradeFailed);
    count_row(&mut batch, &mut totals, RowOutcome::Unchanged);
    assert_eq!((batch.upgraded, batch.errors, totals.unchanged), (1, 2, 1));
    assert!(close_batch(&mut totals, &batch));
    assert_eq!((totals.upgraded, totals.errors), (1, 2));
    // A batch with no progress stops the hasher.
    let stuck = UpgradeCounts { upgraded: 0, errors: 5 };
    assert!(!close_batch(&mut totals, &stuck));
    assert_eq!((totals.upgraded, totals.errors), (1, 7));
}

#[test]
fn background_cache_key_parts() {
    assert_eq!(cache_key_parts(Some(9999), Some(1_700_000_000), 22), Some((9999, 1_700_000_000, 22)));
    assert_eq!(cache_key_parts(Some(5), None, -1), Some((5, 0, 0)));
    assert_eq!(cache_key_parts(Some(-1), Some(1), 1), None);
    assert_eq!(cache_key_parts(None, Some(1), 1), None);
}

fn row_input(fid: u64, parent_fid: u64, path: &str, is_dir: bool, size: u64) -> RowInput {
    RowInput {
        fid,
        parent_fid,
        path: path.to_string(),
        path_bytes: path.as_bytes().to_vec(),
        is_dir,
        size,
        allocated_size: size.next_multiple_of(4096),
    }
}

#[test]
fn rows_for_a_hashed_batch() {
    let config = PipelineConfig::new("vol_test".to_string());
    let entries = vec![
        row_input(1, 1, "/v", true, 0),
        row_input(2, 1, "/v/photo.JPG", false, 11),
        row_input(3, 77, "/v/notes", false, (1u64 << 63) + 5),
    ];
    let ids = location_ids("vol_test", &entries);
    assert_eq!(ids.len(), 3);
    assert_eq!(ids[&2], location_id_for_entry("vol_test", b"/v/photo.JPG"));
    let inputs = vec![
        HashInput { is_dir: true, size: 0, path_bytes: b"/v".to_vec(), cached: None },
        file(11, "/v/photo.JPG"),
        file(0, "/v/notes"),
    ];
    let batch = assemble_batch(&inputs, &[Ok([9u8; 32])]);
    let rows = build_rows(&config, &ids, &entries, &batch.results);
    assert_eq!(rows.len(), 3);
    // The volume root is its own parent: no parent row.
    assert_eq!(rows[0].kind, "Directory");
    assert_eq!(rows[0].parent_id, None);
    assert_eq!(rows[0].mime_type, None);
    assert_eq!(rows[0].location_id, ids[&1]);
    // A file under it.
    assert_eq!(rows[1].kind, "File");
    assert_eq!(rows[1].object_id, [9u8; 32]);
    assert_eq!(rows[1].parent_id, Some(ids[&1]));
    assert_eq!(rows[1].mime_type, Some("image/jpeg".to_string()));
    assert_eq!(rows[1].extension, Some("JPG".to_string()));
    assert_eq!((rows[1].size_bytes, rows[1].allocated_bytes, rows[1].fid_key), (11, 4096, Some(2)));
    // An unknown parent and a size beyond i64.
    assert_eq!(rows[2].parent_id, None);
    assert_eq!(rows[2].extension, None);
    assert_eq!(rows[2].size_bytes, i64::MAX);
}

#[test]
fn pipeline_totals_add_up_batches() {
    let mut totals = PipelineTotals::new(4);
    let entries = vec![dir("/d"), file(0, "/d/e"), file(3, "/d/f")];
    let tally = tally_batch(&[true, false, false], &[0, 0, 3]);
    let batch = assemble_batch(&entries, &[Err("denied".to_string())]);
    totals.add_batch(tally, &batch);
    assert_eq!(
        totals,
        PipelineTotals { total: 4, hashed: 1, cached: 0, skipped: 1, errors: 1, directories: 1, zero_byte: 1 }
    );
    totals.add_batch(tally, &batch);
    assert_eq!((totals.hashed, totals.directories, totals.errors), (2, 2, 2));
}

#[test]
fn batch_cache_miss_then_hit() {
    let id = *blake3::hash(b"hello").as_bytes();
    let first = assemble_batch(&[file(5, "/t/test.txt")], &[Ok(id)]);
    assert_eq!((first.hashed, first.cache_hits), (1, 0));
    let inserts = cache_inserts(&first);
    assert_eq!(inserts, vec![(0, id)]);
    let mut again = file(5, "/t/test.txt");
    again.cached = Some(inserts[0].1);
    let entries = vec![again];
    assert!(files_to_read(&entries).is_empty());
    let second = assemble_batch(&entries, &[]);
    assert_eq!((second.hashed, second.cache_hits), (0, 1));
    assert_eq!(second.results[0].object_id, first.results[0].object_id);
}

#[test]
fn run_counts_account_for_every_entry() {
    let mut totals = PipelineTotals::new(5);
    let first = vec![dir("/d"), file(0, "/d/e"), file(3, "/d/f")];
    totals.hash_batch(&first, &[Err("denied".to_string())]);
    let second = vec![file(4, "/d/g"), file(9, "/d/h")];
    totals.hash_batch(&second, &[Ok([1u8; 32]), Ok([2u8; 32])]);
    assert_eq!(totals.hashed + totals.cached + totals.skipped + totals.directories, totals.total);
    assert_eq!((totals.hashed, totals.skipped, totals.errors, totals.directories, totals.zero_byte), (3, 1, 1, 1, 1));
}

#[test]
fn background_batches_count_every_row_once() {
    let mut totals = BackgroundHashResult { upgraded: 3, errors: 1, unchanged: 0 };
    let rows = [
        RowOutcome::Upgraded,
        RowOutcome::Unchanged,
        RowOutcome::Unreadable,
        RowOutcome::Upgraded,
        RowOutcome::UpgradeFailed,
    ];
    assert!(settle_upgrade_batch(&mut totals, &rows));
    assert_eq!((totals.upgraded, totals.errors, totals.unchanged), (5, 3, 1));
    // Nothing upgraded: the hasher stops, but the rows still count.
    assert!(!settle_upgrade_batch(&mut totals, &[RowOutcome::Unreadable, RowOutcome::Unchanged]));
    assert_eq!((totals.upgraded, totals.errors, totals.unchanged), (5, 4, 2));
    assert!(!settle_upgrade_batch(&mut totals, &[]));
    assert_eq!((totals.upgraded, totals.errors, totals.unchanged), (5, 4, 2));
}
