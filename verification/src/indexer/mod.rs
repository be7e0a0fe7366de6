//! Filesystem indexing: scan ordering, filesystem detection, identifiers.

pub mod error;
pub mod fallback;
pub mod linux;
pub mod linux_events;
pub mod linux_scan;
pub mod mft;
pub mod priority;
pub mod types;
pub mod windows;
