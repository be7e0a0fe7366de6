//! Reflink (copy-on-write) deduplication: capability detection and results.

use vstd::prelude::*;
use crate::dedup::error::DeduplicateError;
use crate::fs_magic::{is_reflink_magic, reflink_magic, statfs_type};
use crate::text::{decimal, push_decimal, push_str, string_of};

verus! {

broadcast use vstd::string::group_string_axioms;

/// Result of a reflink dedup operation on a single file pair.
#[derive(Debug, Clone)]
pub struct ReflinkResult {
    /// Source file (the "reference" kept as-is).
    pub source: String,
    /// Destination file (the duplicate that was reflinked).
    pub dest: String,
    /// Bytes deduplicated (logical size of the file).
    pub bytes_deduped: u64,
    /// Whether the operation succeeded.
    pub success: bool,
    /// Error message if the operation failed.
    pub error: Option<String>,
}

/// Whether a filesystem type magic (or a failed `statfs`) means reflink support.
pub fn reflink_supported_for(magic: Option<i64>) -> (r: bool)
    ensures
        r == match magic {
            Some(m) => is_reflink_magic(m as int),
            None => false,
        },
{
    match magic {
        Some(m) => reflink_magic(m),
        None => false,
    }
}

/// Check if the filesystem at `path` supports reflink dedup (Btrfs or XFS).
pub fn supports_reflink(path: &str) -> (r: bool) {
    let magic = statfs_type(path);
    reflink_supported_for(magic)
}

/// `r` reports `outcome`: the bytes shared on success, nothing and the
/// error's message on failure.
pub open spec fn outcome_reported(r: ReflinkResult, outcome: Result<u64, String>) -> bool {
    match outcome {
        Ok(bytes) => r.success && r.bytes_deduped == bytes && r.error is None,
        Err(e) => !r.success && r.bytes_deduped == 0 && r.error is Some && r.error->0@ == e@,
    }
}

/// What a dedup of `dest` against `source` reports: the bytes shared on
/// success, nothing and the error's message on failure.
pub fn reflink_outcome(source: &str, dest: &str, outcome: &Result<u64, String>) -> (r: ReflinkResult)
    ensures
        r.source@ == source@,
        r.dest@ == dest@,
        outcome_reported(r, *outcome),
{
    match outcome {
        Ok(bytes) => ReflinkResult {
            source: source.to_string(),
            dest: dest.to_string(),
            bytes_deduped: *bytes,
            success: true,
            error: None,
        },
        Err(e) => ReflinkResult {
            source: source.to_string(),
            dest: dest.to_string(),
            bytes_deduped: 0,
            success: false,
            error: Some(e.clone()),
        },
    }
}

/// Batch results: one per duplicate, in order; a failure of one duplicate
/// does not stop the others.
pub fn reflink_dedup_batch(
    source: &str,
    duplicates: &[String],
    outcomes: &[Result<u64, String>],
) -> (r: Vec<ReflinkResult>)
    requires
        outcomes.len() == duplicates.len(),
    ensures
        r.len() == duplicates.len(),
        forall|i: int|
            0 <= i < r.len() ==> {
                &&& (#[trigger] r@[i]).source@ == source@
                &&& r@[i].dest@ == duplicates@[i]@
                &&& outcome_reported(r@[i], outcomes@[i])
            },
{
    let mut results: Vec<ReflinkResult> = Vec::new();
    let mut i: usize = 0;
    while i < duplicates.len()
        invariant
            0 <= i <= duplicates.len(),
            outcomes.len() == duplicates.len(),
            results.len() == i,
            forall|j: int|
                0 <= j < i ==> {
                    &&& (#[trigger] results@[j]).source@ == source@
                    &&& results@[j].dest@ == duplicates@[j]@
                    &&& outcome_reported(results@[j], outcomes@[j])
                },
        decreases duplicates.len() - i,
    {
        let r = reflink_outcome(source, duplicates[i].as_str(), &outcomes[i]);
        results.push(r);
        i = i + 1;
    }
    results
}

/// The message when two files of different sizes are to share storage.
pub open spec fn size_mismatch_message(source_len: u64, dest_len: u64) -> Seq<char> {
    "reflink dedup requires identical file sizes: source="@ + decimal(source_len as nat) + ", dest="@
        + decimal(dest_len as nat)
}

/// Only files of the same size can share their storage: the size to share,
/// or the error naming both sizes.
pub fn check_same_size(source_len: u64, dest_len: u64) -> (r: Result<u64, DeduplicateError>)
    ensures
        source_len == dest_len ==> r == Ok::<u64, DeduplicateError>(source_len),
        source_len != dest_len ==> (r matches Err(DeduplicateError::HashError(m)) && m@ == size_mismatch_message(source_len, dest_len)),
{
    if source_len == dest_len {
        return Ok(source_len);
    }
    let mut v: Vec<char> = Vec::new();
    push_str(&mut v, "reflink dedup requires identical file sizes: source=");
    push_decimal(&mut v, source_len);
    push_str(&mut v, ", dest=");
    push_decimal(&mut v, dest_len);
    proof {
        assert(v@ =~= size_mismatch_message(source_len, dest_len));
    }
    Err(DeduplicateError::HashError(string_of(v.as_slice())))
}

/// What the kernel's `FIDEDUPERANGE` status says of one destination.
#[derive(Debug, Clone, Copy, PartialEq, Eq, Structural)]
pub enum DedupeStatus {
    /// The data was identical and is now shared.
    Same,
    /// The data differs: nothing was shared.
    Differs,
    /// The kernel reported this OS error number.
    OsError(i32),
}

/// Read a `FIDEDUPERANGE` status: 0 shared, 1 differs, a negative value
/// the negated OS error number.
pub fn dedupe_status(status: i32) -> (r: DedupeStatus)
    requires
        status != i32::MIN,
    ensures
        status == 0 ==> r == DedupeStatus::Same,
        status == 1 ==> r == DedupeStatus::Differs,
        status != 0 && status != 1 ==> r == DedupeStatus::OsError(-status as i32),
{
    if status == 0 {
        DedupeStatus::Same
    } else if status == 1 {
        DedupeStatus::Differs
    } else {
        DedupeStatus::OsError(-status)
    }
}

/// The message when the kernel found the data different.
pub open spec fn differs_message() -> Seq<char> {
    "FIDEDUPERANGE: data differs (content mismatch)"@
}

/// The error of a destination whose data differs from the source's.
pub fn differs_error() -> (r: DeduplicateError)
    ensures
        r matches DeduplicateError::HashError(m) && m@ == differs_message(),
{
    DeduplicateError::HashError("FIDEDUPERANGE: data differs (content mismatch)".to_string())
}

} // verus!
