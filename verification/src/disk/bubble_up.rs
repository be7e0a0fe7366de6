//! Live bubble-up delta propagation for directory sizes.
//!
//! When a file is created, deleted, or resized, the delta propagates to all
//! ancestor directories. This module computes the deltas; the caller applies
//! them to its stores.

use vstd::prelude::*;

verus! {

broadcast use vstd::string::group_string_axioms;

/// A delta to apply to one directory's size record.
#[derive(Debug, Clone, PartialEq)]
pub struct DirSizeDelta {
    pub location_id: String,
    pub file_count_delta: i64,
    pub bytes_delta: i64,
    pub allocated_delta: i64,
}

/// Compute deltas for all ancestors when a file changes.
///
/// `ancestor_ids` should be ordered child-to-root (immediate parent first).
/// Each ancestor gets the same delta, in the same order.
pub fn compute_bubble_up(
    ancestor_ids: &[String],
    file_count_delta: i64,
    bytes_delta: i64,
    allocated_delta: i64,
) -> (r: Vec<DirSizeDelta>)
    ensures
        r.len() == ancestor_ids.len(),
        forall|i: int|
            0 <= i < r.len() ==> {
                &&& (#[trigger] r@[i]).location_id@ == ancestor_ids@[i]@
                &&& r@[i].file_count_delta == file_count_delta
                &&& r@[i].bytes_delta == bytes_delta
                &&& r@[i].allocated_delta == allocated_delta
            },
{
    let mut out: Vec<DirSizeDelta> = Vec::new();
    let mut i: usize = 0;
    while i < ancestor_ids.len()
        invariant
            0 <= i <= ancestor_ids.len(),
            out.len() == i,
            forall|j: int|
                0 <= j < i ==> {
                    &&& (#[trigger] out@[j]).location_id@ == ancestor_ids@[j]@
                    &&& out@[j].file_count_delta == file_count_delta
                    &&& out@[j].bytes_delta == bytes_delta
                    &&& out@[j].allocated_delta == allocated_delta
                },
        decreases ancestor_ids.len() - i,
    {
        let d = DirSizeDelta {
            location_id: ancestor_ids[i].clone(),
            file_count_delta,
            bytes_delta,
            allocated_delta,
        };
        out.push(d);
        i = i + 1;
    }
    out
}

} // verus!
