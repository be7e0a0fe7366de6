//! Verified core of the HyprDrive filesystem indexer.

pub mod duration;
pub mod hashing;
pub mod text;
pub mod path;
pub mod pipeline;
pub mod dedup;
pub mod disk;
pub mod fs_magic;
pub mod indexer;
pub mod ipc;
