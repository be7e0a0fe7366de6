//! Error type of the filesystem indexer.

use vstd::prelude::*;
use crate::indexer::types::{FilesystemKind, kind_name};
use crate::text::{decimal, push_decimal, push_str, string_of};

verus! {

broadcast use vstd::string::group_string_axioms;

/// Errors that can occur during filesystem indexing. Underlying I/O errors
/// are carried as their messages.
#[derive(Debug)]
pub enum FsIndexerError {
    /// MFT access denied — typically needs admin/elevated privileges.
    MftAccess { volume: String, source: String },
    /// USN journal seek or read failed.
    JournalError(String),
    /// Permission denied accessing a specific file during enrichment.
    PermissionDenied { path: String },
    /// The filesystem type is not supported for MFT scanning.
    UnsupportedFs { kind: FilesystemKind },
    /// Volume detection failed.
    DetectionFailed { volume: String, source: String },
    /// Path reconstruction failed (broken parent chain).
    BrokenParentChain { fid: u64, parent_fid: u64 },
    /// fanotify initialization or watch failed.
    FanotifyError { source: String },
    /// inotify watch limit exhausted.
    InotifyWatchLimit { current: usize, max: usize },
    /// Pseudo-filesystem detected — should be skipped, not indexed.
    PseudoFilesystem { path: String, fs_type: String },
    /// Generic I/O error.
    Io(String),
}

/// The message of an indexer error.
pub open spec fn error_message(e: FsIndexerError) -> Seq<char> {
    match e {
        FsIndexerError::MftAccess { volume, source } => "MFT access denied on volume "@ + volume@
            + ": "@ + source@,
        FsIndexerError::JournalError(s) => "USN journal error: "@ + s@,
        FsIndexerError::PermissionDenied { path } => "permission denied: "@ + path@,
        FsIndexerError::UnsupportedFs { kind } => "unsupported filesystem: "@ + kind_name(kind),
        FsIndexerError::DetectionFailed { volume, source } => "failed to detect filesystem on "@
            + volume@ + ": "@ + source@,
        FsIndexerError::BrokenParentChain { fid, parent_fid } => "broken parent chain for fid "@
            + decimal(fid as nat) + ": parent "@ + decimal(parent_fid as nat) + " not found"@,
        FsIndexerError::FanotifyError { source } => "fanotify error: "@ + source@,
        FsIndexerError::InotifyWatchLimit { current, max } => "inotify watch limit reached: "@
            + decimal(current as nat) + "/"@ + decimal(max as nat) + " watches"@,
        FsIndexerError::PseudoFilesystem { path, fs_type } => "pseudo-filesystem at "@ + path@
            + ": "@ + fs_type@,
        FsIndexerError::Io(s) => s@,
    }
}

impl FsIndexerError {
    /// The error's message.
    pub fn message(&self) -> (r: String)
        ensures
            r@ == error_message(*self),
    {
        let mut v: Vec<char> = Vec::new();
        match self {
            FsIndexerError::MftAccess { volume, source } => {
                push_str(&mut v, "MFT access denied on volume ");
                push_str(&mut v, volume.as_str());
                push_str(&mut v, ": ");
                push_str(&mut v, source.as_str());
            },
            FsIndexerError::JournalError(s) => {
                push_str(&mut v, "USN journal error: ");
                push_str(&mut v, s.as_str());
            },
            FsIndexerError::PermissionDenied { path } => {
                push_str(&mut v, "permission denied: ");
                push_str(&mut v, path.as_str());
            },
            FsIndexerError::UnsupportedFs { kind } => {
                push_str(&mut v, "unsupported filesystem: ");
                push_str(&mut v, kind.name());
            },
            FsIndexerError::DetectionFailed { volume, source } => {
                push_str(&mut v, "failed to detect filesystem on ");
                push_str(&mut v, volume.as_str());
                push_str(&mut v, ": ");
                push_str(&mut v, source.as_str());
            },
            FsIndexerError::BrokenParentChain { fid, parent_fid } => {
                push_str(&mut v, "broken parent chain for fid ");
                push_decimal(&mut v, *fid);
                push_str(&mut v, ": parent ");
                push_decimal(&mut v, *parent_fid);
                push_str(&mut v, " not found");
            },
            FsIndexerError::FanotifyError { source } => {
                push_str(&mut v, "fanotify error: ");
                push_str(&mut v, source.as_str());
            },
            FsIndexerError::InotifyWatchLimit { current, max } => {
                push_str(&mut v, "inotify watch limit reached: ");
                push_decimal(&mut v, *current as u64);
                push_str(&mut v, "/");
                push_decimal(&mut v, *max as u64);
                push_str(&mut v, " watches");
            },
            FsIndexerError::PseudoFilesystem { path, fs_type } => {
                push_str(&mut v, "pseudo-filesystem at ");
                push_str(&mut v, path.as_str());
                push_str(&mut v, ": ");
                push_str(&mut v, fs_type.as_str());
            },
            FsIndexerError::Io(s) => {
                push_str(&mut v, s.as_str());
            },
        }
        proof {
            assert(v@ =~= error_message(*self));
        }
        string_of(v.as_slice())
    }
}

} // verus!
