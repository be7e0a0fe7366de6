//! The rows the object pipeline writes for a hashed batch: one object row
//! and one location row per hashed entry.

use vstd::prelude::*;
use vstd::string::StringSliceAdditionalSpecFns;
use vstd::utf8::encode_utf8;
use std::collections::HashMap;
use crate::path::{extension, path_extension};
use crate::pipeline::batch_hash::HashResult;
use crate::pipeline::fid_map::fid_as_i64;
use crate::pipeline::plan::{has_parent_row, object_kind, size_column, wants_mime};
use crate::pipeline::{location_digest, location_id_for_entry, mime_from_extension, mime_of, PipelineConfig, NO_PARENT_FID};
use crate::text::{chars_of, string_of};

verus! {

broadcast use {vstd::string::group_string_axioms, vstd::std_specs::hash::group_hash_axioms};

/// An index entry, as far as its rows read it.
pub struct RowInput {
    pub fid: u64,
    pub parent_fid: u64,
    /// The full path as text.
    pub path: String,
    /// The full path as the OS encodes it.
    pub path_bytes: Vec<u8>,
    pub is_dir: bool,
    pub size: u64,
    pub allocated_size: u64,
}

/// What goes into the rows of one hashed entry.
pub struct RowPlan {
    /// The location's id.
    pub location_id: [u8; 32],
    /// The object's id (from hashing).
    pub object_id: [u8; 32],
    /// "Directory" or "File".
    pub kind: &'static str,
    pub mime_type: Option<String>,
    pub extension: Option<String>,
    /// The location id of the parent, where the batch knows it.
    pub parent_id: Option<[u8; 32]>,
    pub is_directory: bool,
    pub size_bytes: i64,
    pub allocated_bytes: i64,
    /// The fid as the store's signed id, where it fits.
    pub fid_key: Option<i64>,
}

/// The fid → location id map of a batch, built in order (a later entry for
/// a fid wins).
pub open spec fn location_map(volume: Seq<u8>, s: Seq<RowInput>) -> Map<u64, Seq<u8>>
    decreases s.len(),
{
    if s.len() == 0 {
        Map::empty()
    } else {
        location_map(volume, s.drop_last()).insert(s.last().fid, location_digest(volume, s.last().path_bytes@))
    }
}

/// An optional text as characters.
pub open spec fn text_of(o: Option<String>) -> Option<Seq<char>> {
    match o {
        Some(s) => Some(s@),
        None => None,
    }
}

/// A signed column value: the value, capped at `i64::MAX`.
pub open spec fn capped(v: u64) -> i64 {
    if v <= i64::MAX {
        v as i64
    } else {
        i64::MAX
    }
}

/// `row` holds the rows of entry `e` hashed as `h`, with `ids` the batch's
/// location ids.
pub open spec fn row_of(
    row: RowPlan,
    config: PipelineConfig,
    volume: Seq<u8>,
    ids: Map<u64, Seq<u8>>,
    e: RowInput,
    h: HashResult,
) -> bool {
    &&& row.object_id == h.object_id
    &&& row.location_id@ == (if ids.contains_key(e.fid) {
        ids[e.fid]
    } else {
        location_digest(volume, e.path_bytes@)
    })
    &&& row.kind@ == (if e.is_dir {
        "Directory"@
    } else {
        "File"@
    })
    &&& text_of(row.mime_type) == (if config.mime_detection && !e.is_dir {
        mime_of(e.path@)
    } else {
        None
    })
    &&& text_of(row.extension) == extension(e.path@)
    &&& match row.parent_id {
        Some(p) => e.parent_fid != NO_PARENT_FID && e.parent_fid != e.fid && ids.contains_key(e.parent_fid) && p@
            == ids[e.parent_fid],
        None => !(e.parent_fid != NO_PARENT_FID && e.parent_fid != e.fid && ids.contains_key(e.parent_fid)),
    }
    &&& row.is_directory == e.is_dir
    &&& row.size_bytes == capped(e.size)
    &&& row.allocated_bytes == capped(e.allocated_size)
    &&& row.fid_key == (if e.fid <= i64::MAX {
        Some(e.fid as i64)
    } else {
        None
    })
}

/// The location id of every entry of a batch, by fid.
pub fn location_ids(volume_id: &str, entries: &[RowInput]) -> (r: HashMap<u64, [u8; 32]>)
    ensures
        r@.map_values(|a: [u8; 32]| a@) == location_map(encode_utf8(volume_id@), entries@),
{
    let mut m: HashMap<u64, [u8; 32]> = HashMap::new();
    let mut i: usize = 0;
    proof {
        assert(m@.map_values(|a: [u8; 32]| a@) =~= Map::<u64, Seq<u8>>::empty());
    }
    while i < entries.len()
        invariant
            0 <= i <= entries@.len(),
            m@.map_values(|a: [u8; 32]| a@) == location_map(volume_id.spec_bytes(), entries@.take(i as int)),
        decreases entries@.len() - i,
    {
        proof {
            let t = entries@.take(i + 1);
            assert(t.drop_last() =~= entries@.take(i as int));
            assert(t.last() == entries@[i as int]);
        }
        let id = location_id_for_entry(volume_id, entries[i].path_bytes.as_slice());
        let ghost before = m@;
        m.insert(entries[i].fid, id);
        proof {
            assert(m@.map_values(|a: [u8; 32]| a@) =~= before.map_values(|a: [u8; 32]| a@).insert(entries@[i as int].fid, id@));
        }
        i = i + 1;
    }
    proof {
        assert(entries@.take(entries@.len() as int) =~= entries@);
    }
    m
}

/// The rows of one hashed entry.
pub fn plan_row(config: &PipelineConfig, ids: &HashMap<u64, [u8; 32]>, e: &RowInput, h: &HashResult) -> (r: RowPlan)
    ensures
        row_of(r, *config, encode_utf8(config.volume_id@), ids@.map_values(|a: [u8; 32]| a@), *e, *h),
{
    let location_id = match ids.get(&e.fid) {
        Some(id) => *id,
        None => location_id_for_entry(config.volume_id.as_str(), e.path_bytes.as_slice()),
    };
    let mime_type = if wants_mime(config, e.is_dir) {
        mime_from_extension(e.path.as_str())
    } else {
        None
    };
    let p = chars_of(e.path.as_str());
    let extension = match path_extension(p.as_slice()) {
        Some(x) => Some(string_of(x.as_slice())),
        None => None,
    };
    let parent_id = if has_parent_row(e.fid, e.parent_fid) {
        match ids.get(&e.parent_fid) {
            Some(id) => Some(*id),
            None => None,
        }
    } else {
        None
    };
    RowPlan {
        location_id,
        object_id: h.object_id,
        kind: object_kind(e.is_dir),
        mime_type,
        extension,
        parent_id,
        is_directory: e.is_dir,
        size_bytes: size_column(e.size),
        allocated_bytes: size_column(e.allocated_size),
        fid_key: fid_as_i64(e.fid),
    }
}

/// The rows of a hashed batch, one per hash result, in the results' order.
pub fn build_rows(
    config: &PipelineConfig,
    ids: &HashMap<u64, [u8; 32]>,
    entries: &[RowInput],
    results: &[HashResult],
) -> (r: Vec<RowPlan>)
    requires
        forall|k: int| 0 <= k < results@.len() ==> (#[trigger] results@[k]).index < entries@.len(),
    ensures
        r@.len() == results@.len(),
        forall|k: int|
            0 <= k < results@.len() ==> row_of(
                #[trigger] r@[k],
                *config,
                encode_utf8(config.volume_id@),
                ids@.map_values(|a: [u8; 32]| a@),
                entries@[results@[k].index as int],
                results@[k],
            ),
{
    let mut out: Vec<RowPlan> = Vec::new();
    let mut k: usize = 0;
    while k < results.len()
        invariant
            0 <= k <= results@.len(),
            out@.len() == k,
            forall|j: int| 0 <= j < results@.len() ==> (#[trigger] results@[j]).index < entries@.len(),
            forall|j: int|
                0 <= j < k ==> row_of(
                    #[trigger] out@[j],
                    *config,
                    encode_utf8(config.volume_id@),
                    ids@.map_values(|a: [u8; 32]| a@),
                    entries@[results@[j].index as int],
                    results@[j],
                ),
        decreases results@.len() - k,
    {
        let h = &results[k];
        let row = plan_row(config, ids, &entries[h.index], h);
        out.push(row);
        k = k + 1;
    }
    out
}

} // verus!
