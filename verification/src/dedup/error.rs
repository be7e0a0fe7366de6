//! Error type of the duplicate-detection engine.

use vstd::prelude::*;
use crate::text::{chars_of, string_of};

verus! {

broadcast use vstd::string::group_string_axioms;

/// Errors that can occur during duplicate detection.
#[derive(Debug)]
pub enum DeduplicateError {
    /// IO error reading a file (its message).
    Io(String),
    /// Error hashing a file.
    HashError(String),
    /// Error processing an image for perceptual hashing.
    ImageError(String),
}

/// `prefix` followed by `detail`.
fn prefixed(prefix: &str, detail: &String) -> (r: String)
    ensures
        r@ == prefix@ + detail@,
{
    let mut v = chars_of(prefix);
    let d = chars_of(detail.as_str());
    let mut i: usize = 0;
    let ghost start = v@;
    while i < d.len()
        invariant
            0 <= i <= d@.len(),
            v@ == start + d@.take(i as int),
        decreases d@.len() - i,
    {
        v.push(d[i]);
        proof {
            assert(d@.take(i + 1) =~= d@.take(i as int).push(d@[i as int]));
        }
        i = i + 1;
    }
    proof {
        assert(d@.take(d@.len() as int) =~= d@);
    }
    string_of(v.as_slice())
}

impl DeduplicateError {
    /// The error's message: "IO error: ..", "hash error: ..", "image error: ..".
    pub fn message(&self) -> (r: String)
        ensures
            r@ == match self {
                DeduplicateError::Io(d) => "IO error: "@ + d@,
                DeduplicateError::HashError(d) => "hash error: "@ + d@,
                DeduplicateError::ImageError(d) => "image error: "@ + d@,
            },
    {
        match self {
            DeduplicateError::Io(d) => prefixed("IO error: ", d),
            DeduplicateError::HashError(d) => prefixed("hash error: ", d),
            DeduplicateError::ImageError(d) => prefixed("image error: ", d),
        }
    }
}

} // verus!
