//! Durations given in milliseconds.

use vstd::prelude::*;
use std::time::Duration;

verus! {

/// `Duration` is `Copy`: its `clone` is the same duration.
pub assume_specification[ <Duration as Clone>::clone ](d: &Duration) -> (r: Duration)
    ensures
        r == *d,
;

/// The duration of `ms` milliseconds, as `Duration::from_millis` builds it.
pub uninterp spec fn millis(ms: u64) -> Duration;

/// Calls `Duration::from_millis`: the duration of `ms` milliseconds, named
/// `millis` (the same count always gives the same duration).
#[verifier::external_body]
pub(crate) fn from_millis(ms: u64) -> (r: Duration)
    ensures
        r == millis(ms),
{
    Duration::from_millis(ms)
}

} // verus!
