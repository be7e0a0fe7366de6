//! Multi-strategy duplicate file detection.

pub mod error;
pub mod file_entry;
pub mod folder_dedup;
pub mod folder_laws;
pub mod fuzzy;
pub mod grouping;
pub mod perceptual;
pub mod reflink;
pub mod scanner;
