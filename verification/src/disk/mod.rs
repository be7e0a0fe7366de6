//! Disk analysis: directory size propagation and reclaimable-space patterns.

pub mod bubble_up;
pub mod patterns;
