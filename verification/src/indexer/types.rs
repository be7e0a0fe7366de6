//! Core value types of the filesystem indexer.

use vstd::prelude::*;

verus! {

broadcast use vstd::string::group_string_axioms;

/// Detected filesystem type for a volume.
#[derive(Debug, Clone, Copy, PartialEq, Eq, Structural)]
pub enum FilesystemKind {
    /// NTFS — supports MFT enumeration and USN journal.
    Ntfs,
    /// FAT32 — requires jwalk fallback.
    Fat32,
    /// exFAT — requires jwalk fallback.
    ExFat,
    /// ReFS — Windows resilient filesystem.
    Refs,
    /// ext4 — default Linux filesystem.
    Ext4,
    /// btrfs — copy-on-write Linux filesystem.
    Btrfs,
    /// XFS — high-performance Linux filesystem.
    Xfs,
    /// ZFS — advanced filesystem with snapshots.
    Zfs,
    /// tmpfs — in-memory temporary filesystem.
    Tmpfs,
    /// 9P — Plan 9 protocol (WSL2 Windows mount at /mnt/c).
    NineP,
    /// NFS — network filesystem.
    Nfs,
    /// OverlayFS — union mount filesystem (Docker).
    OverlayFs,
    /// FUSE — filesystem in userspace.
    Fuse,
    /// Unknown or unsupported filesystem.
    Unknown,
}

/// The variant's name, as `{:?}` prints it.
pub open spec fn kind_name(k: FilesystemKind) -> Seq<char> {
    match k {
        FilesystemKind::Ntfs => "Ntfs"@,
        FilesystemKind::Fat32 => "Fat32"@,
        FilesystemKind::ExFat => "ExFat"@,
        FilesystemKind::Refs => "Refs"@,
        FilesystemKind::Ext4 => "Ext4"@,
        FilesystemKind::Btrfs => "Btrfs"@,
        FilesystemKind::Xfs => "Xfs"@,
        FilesystemKind::Zfs => "Zfs"@,
        FilesystemKind::Tmpfs => "Tmpfs"@,
        FilesystemKind::NineP => "NineP"@,
        FilesystemKind::Nfs => "Nfs"@,
        FilesystemKind::OverlayFs => "OverlayFs"@,
        FilesystemKind::Fuse => "Fuse"@,
        FilesystemKind::Unknown => "Unknown"@,
    }
}

impl FilesystemKind {
    /// The variant's name, as `{:?}` prints it.
    pub fn name(self) -> (r: &'static str)
        ensures
            r@ == kind_name(self),
    {
        match self {
        FilesystemKind::Ntfs => "Ntfs",
        FilesystemKind::Fat32 => "Fat32",
        FilesystemKind::ExFat => "ExFat",
        FilesystemKind::Refs => "Refs",
        FilesystemKind::Ext4 => "Ext4",
        FilesystemKind::Btrfs => "Btrfs",
        FilesystemKind::Xfs => "Xfs",
        FilesystemKind::Zfs => "Zfs",
        FilesystemKind::Tmpfs => "Tmpfs",
        FilesystemKind::NineP => "NineP",
        FilesystemKind::Nfs => "Nfs",
        FilesystemKind::OverlayFs => "OverlayFs",
        FilesystemKind::Fuse => "Fuse",
        FilesystemKind::Unknown => "Unknown",
        }
    }
}

/// USN journal cursor for tracking delta position.
#[derive(Debug, Clone, Copy, PartialEq, Eq, Structural)]
pub struct UsnCursor {
    /// The USN journal ID.
    pub journal_id: u64,
    /// The next USN to read from.
    pub next_usn: i64,
}

/// Linux filesystem cursor for tracking scan position.
///
/// Unlike NTFS's USN journal (which has a sequential cursor), Linux uses
/// timestamp-based tracking combined with inotify state.
#[derive(Debug, Clone, Copy, PartialEq, Eq, Structural)]
pub struct LinuxCursor {
    /// Timestamp of last completed scan (epoch milliseconds).
    pub last_scan_epoch_ms: i64,
    /// Whether fanotify was active during this scan (vs inotify fallback).
    pub fanotify_active: bool,
}

/// Platform-agnostic store for watcher cursors across restarts.
///
/// Each platform serializes its own cursor type to JSON before storing; the
/// storage backend stays cursor-type-agnostic. Errors are reported as text.
pub trait CursorStore {
    /// Save a cursor as a JSON string for a volume key (e.g. "C" on Windows,
    /// "/dev/sda1" on Linux).
    fn save(&self, volume_key: &str, cursor_json: &str) -> Result<(), String>;

    /// Load a cursor JSON string for a volume key. Returns None if not found.
    fn load(&self, volume_key: &str) -> Result<Option<String>, String>;
}

/// A no-op cursor store that doesn't persist anything.
#[derive(Debug, Clone)]
pub struct NoCursorStore;

impl CursorStore for NoCursorStore {
    fn save(&self, volume_key: &str, cursor_json: &str) -> (r: Result<(), String>)
        ensures
            r is Ok,
    {
        Ok(())
    }

    fn load(&self, volume_key: &str) -> (r: Result<Option<String>, String>)
        ensures
            r == Ok::<Option<String>, String>(None),
    {
        Ok(None)
    }
}

} // verus!
