//! Linux filesystem detection, identifiers and listener configuration.
//!
//! Detection reads `/proc/mounts` (the caller hands its text over), finds the
//! mount whose mount point is the longest prefix of the path, maps the type
//! string to a [`FilesystemKind`], and rejects pseudo-filesystems by their
//! `statfs` magic.

use vstd::prelude::*;
use std::hash::BuildHasher;
use crate::fs_magic::{is_pseudo_magic, lemma_pseudo_magics, pseudo_magic, statfs_type};
use crate::indexer::error::FsIndexerError;
use crate::indexer::types::FilesystemKind;
use crate::path::{components, is_rooted, is_separator, path_components};
use crate::text::{chars_of, eq_chars, split_lines, split_words, string_of, text_lines, text_words};

verus! {

broadcast use vstd::string::group_string_axioms;

/// Information about a mounted filesystem.
#[derive(Debug, Clone)]
pub struct MountInfo {
    /// Block device path (e.g., "/dev/sda1").
    pub device: String,
    /// Mount point path (e.g., "/home").
    pub mount_point: String,
    /// Filesystem type string (e.g., "ext4").
    pub fs_type: String,
    /// Mount options (e.g., "rw,relatime").
    pub options: String,
}

/// The word lists of the lines (among `ls`) that have at least four words.
pub open spec fn mount_lines(ls: Seq<Seq<char>>) -> Seq<Seq<Seq<char>>>
    decreases ls.len(),
{
    if ls.len() == 0 {
        seq![]
    } else {
        let w = text_words(ls.last());
        mount_lines(ls.drop_last()) + if w.len() >= 4 {
            seq![w]
        } else {
            seq![]
        }
    }
}

/// The mount entries of a `/proc/mounts` text: per line with at least four
/// whitespace-separated fields, those fields.
pub open spec fn mount_entries(content: Seq<char>) -> Seq<Seq<Seq<char>>> {
    mount_lines(text_lines(content))
}

/// `m` holds the first four fields of a mount line.
pub open spec fn describes(m: MountInfo, w: Seq<Seq<char>>) -> bool {
    &&& m.device@ == w[0]
    &&& m.mount_point@ == w[1]
    &&& m.fs_type@ == w[2]
    &&& m.options@ == w[3]
}

/// Parse mount entries from /proc/mounts content.
///
/// Each line has the format: `device mountpoint fstype options dump pass`;
/// lines with fewer than four fields are skipped.
pub fn parse_mounts(content: &str) -> (r: Vec<MountInfo>)
    ensures
        r.len() == mount_entries(content@).len(),
        forall|i: int| 0 <= i < r.len() ==> describes(#[trigger] r@[i], mount_entries(content@)[i]),
{
    let c = chars_of(content);
    let lines = split_lines(c.as_slice());
    let ghost ls = text_lines(content@);
    let mut out: Vec<MountInfo> = Vec::new();
    let mut i: usize = 0;
    while i < lines.len()
        invariant
            0 <= i <= lines@.len(),
            ls == text_lines(content@),
            lines@.len() == ls.len(),
            forall|k: int| 0 <= k < lines@.len() ==> #[trigger] lines@[k]@ == ls[k],
            out.len() == mount_lines(ls.take(i as int)).len(),
            forall|k: int|
                0 <= k < out.len() ==> describes(#[trigger] out@[k], mount_lines(ls.take(i as int))[k]),
        decreases lines@.len() - i,
    {
        proof {
            assert(ls.take(i + 1).drop_last() =~= ls.take(i as int));
            assert(ls.take(i + 1).last() == ls[i as int]);
        }
        let words = split_words(lines[i].as_slice());
        if words.len() >= 4 {
            let m = MountInfo {
                device: string_of(words[0].as_slice()),
                mount_point: string_of(words[1].as_slice()),
                fs_type: string_of(words[2].as_slice()),
                options: string_of(words[3].as_slice()),
            };
            out.push(m);
        }
        i = i + 1;
    }
    proof {
        assert(ls.take(ls.len() as int) =~= ls);
    }
    out
}

/// `base` is a component-wise prefix of `p` (`Path::starts_with`).
pub open spec fn path_starts_with(p: Seq<char>, base: Seq<char>) -> bool {
    &&& is_rooted(p) == is_rooted(base)
    &&& components(base).len() <= components(p).len()
    &&& components(p).take(components(base).len() as int) == components(base)
}

/// Number of bytes of the UTF-8 encoding of `s`.
pub open spec fn utf8_len(s: Seq<char>) -> int
    decreases s.len(),
{
    if s.len() == 0 {
        0
    } else {
        utf8_len(s.drop_last()) + char_utf8_len(s.last())
    }
}

/// Number of bytes of the UTF-8 encoding of `c`.
pub open spec fn char_utf8_len(c: char) -> int {
    if (c as u32) < 0x80 {
        1
    } else if (c as u32) < 0x800 {
        2
    } else if (c as u32) < 0x10000 {
        3
    } else {
        4
    }
}

/// Among the first `k` mount points, the last one of greatest length that is
/// a prefix of `path`.
pub open spec fn best_prefix_below(path: Seq<char>, points: Seq<Seq<char>>, k: int) -> Option<int>
    decreases k,
{
    if k <= 0 {
        None
    } else {
        let prev = best_prefix_below(path, points, k - 1);
        if path_starts_with(path, points[k - 1]) {
            match prev {
                Some(j) => if utf8_len(points[k - 1]) >= utf8_len(points[j]) {
                    Some(k - 1)
                } else {
                    prev
                },
                None => Some(k - 1),
            }
        } else {
            prev
        }
    }
}

/// The chosen mount point is one of the first `k`.
pub proof fn lemma_best_prefix_range(path: Seq<char>, points: Seq<Seq<char>>, k: int)
    ensures
        best_prefix_below(path, points, k) matches Some(i) ==> 0 <= i < k,
    decreases k,
{
    if k > 0 {
        lemma_best_prefix_range(path, points, k - 1);
    }
}

/// The mount points of a list of mounts.
pub open spec fn mount_points(mounts: Seq<MountInfo>) -> Seq<Seq<char>> {
    mounts.map_values(|m: MountInfo| m.mount_point@)
}

/// The mount whose mount point is the longest prefix of `path` (the last of
/// equally long ones).
pub open spec fn best_mount(path: Seq<char>, mounts: Seq<MountInfo>) -> Option<int> {
    best_prefix_below(path, mount_points(mounts), mounts.len() as int)
}

/// Number of UTF-8 bytes of a text.
pub fn utf8_length(s: &[char]) -> (r: u128)
    ensures
        r == utf8_len(s@),
{
    let mut n: u128 = 0;
    let mut i: usize = 0;
    while i < s.len()
        invariant
            0 <= i <= s@.len(),
            n == utf8_len(s@.take(i as int)),
            n <= 4 * i,
        decreases s@.len() - i,
    {
        proof {
            assert(s@.take(i + 1).drop_last() =~= s@.take(i as int));
        }
        let c = s[i] as u32;
        let w: u128 = if c < 0x80 {
            1
        } else if c < 0x800 {
            2
        } else if c < 0x10000 {
            3
        } else {
            4
        };
        n = n + w;
        i = i + 1;
    }
    proof {
        assert(s@.take(s@.len() as int) =~= s@);
    }
    n
}

/// Whether the components of `base` begin the components of `p`.
fn components_prefix(p: &Vec<Vec<char>>, base: &Vec<Vec<char>>) -> (r: bool)
    ensures
        r == (base@.len() <= p@.len() && forall|k: int| 0 <= k < base@.len() ==> #[trigger] base@[k]@ == p@[k]@),
{
    if base.len() > p.len() {
        return false;
    }
    let mut k: usize = 0;
    while k < base.len()
        invariant
            base@.len() <= p@.len(),
            0 <= k <= base@.len(),
            forall|j: int| 0 <= j < k ==> #[trigger] base@[j]@ == p@[j]@,
        decreases base@.len() - k,
    {
        if !eq_chars(base[k].as_slice(), p[k].as_slice()) {
            return false;
        }
        k = k + 1;
    }
    true
}

/// Whether `base` is a component-wise prefix of `path`.
pub fn starts_with_path(path: &str, base: &str) -> (r: bool)
    ensures
        r == path_starts_with(path@, base@),
{
    let p = chars_of(path);
    let b = chars_of(base);
    let rp = p.len() > 0 && is_separator(p[0]);
    let rb = b.len() > 0 && is_separator(b[0]);
    if rp != rb {
        return false;
    }
    let pc = path_components(p.as_slice());
    let bc = path_components(b.as_slice());
    let r = components_prefix(&pc, &bc);
    proof {
        if r {
            assert forall|k: int| 0 <= k < components(base@).len() implies components(path@)[k]
                == components(base@)[k] by {
                assert(bc@[k]@ == pc@[k]@);
            }
            assert(components(path@).take(components(base@).len() as int) =~= components(base@));
        } else if components(base@).len() <= components(path@).len() {
            let k = choose|k: int| 0 <= k < bc@.len() && #[trigger] bc@[k]@ != pc@[k]@;
            assert(components(path@).take(components(base@).len() as int)[k] != components(base@)[k]);
        }
    }
    r
}

/// Find the mount entry whose mount point is the longest prefix of `path`
/// (nested mounts: `/home/user` matches `/home` over `/`).
pub fn find_mount_for_path(path: &str, mounts: &[MountInfo]) -> (r: Option<usize>)
    ensures
        r == match best_mount(path@, mounts@) {
            Some(i) => Some(i as usize),
            None => None::<usize>,
        },
{
    let mut best: Option<usize> = None;
    let mut best_len: u128 = 0;
    let mut k: usize = 0;
    while k < mounts.len()
        invariant
            0 <= k <= mounts@.len(),
            best == match best_prefix_below(path@, mount_points(mounts@), k as int) {
                Some(i) => Some(i as usize),
                None => None::<usize>,
            },
            best_prefix_below(path@, mount_points(mounts@), k as int) matches Some(j) ==> 0 <= j < k
                && best_len == utf8_len(mounts@[j].mount_point@),
        decreases mounts@.len() - k,
    {
        let mp = chars_of(mounts[k].mount_point.as_str());
        if starts_with_path(path, mounts[k].mount_point.as_str()) {
            let len = utf8_length(mp.as_slice());
            match best {
                Some(_) => {
                    if len >= best_len {
                        best = Some(k);
                        best_len = len;
                    }
                },
                None => {
                    best = Some(k);
                    best_len = len;
                },
            }
        }
        k = k + 1;
    }
    best
}

/// The filesystem kind of a Linux filesystem type string.
pub open spec fn fstype_kind(t: Seq<char>) -> FilesystemKind {
    if t == "ext4"@ {
        FilesystemKind::Ext4
    } else     if t == "ext3"@ {
        FilesystemKind::Ext4
    } else     if t == "ext2"@ {
        FilesystemKind::Ext4
    } else     if t == "btrfs"@ {
        FilesystemKind::Btrfs
    } else     if t == "xfs"@ {
        FilesystemKind::Xfs
    } else     if t == "zfs"@ {
        FilesystemKind::Zfs
    } else     if t == "tmpfs"@ {
        FilesystemKind::Tmpfs
    } else     if t == "devtmpfs"@ {
        FilesystemKind::Tmpfs
    } else     if t == "9p"@ {
        FilesystemKind::NineP
    } else     if t == "nfs"@ {
        FilesystemKind::Nfs
    } else     if t == "nfs4"@ {
        FilesystemKind::Nfs
    } else     if t == "overlay"@ {
        FilesystemKind::OverlayFs
    } else     if t == "ntfs"@ {
        FilesystemKind::Ntfs
    } else     if t == "ntfs3"@ {
        FilesystemKind::Ntfs
    } else     if t == "vfat"@ {
        FilesystemKind::Fat32
    } else     if t == "exfat"@ {
        FilesystemKind::ExFat
    } else if t.len() >= 4 && t.take(4) == "fuse"@ {
        FilesystemKind::Fuse
    } else {
        FilesystemKind::Unknown
    }
}

/// Whether `a` holds exactly the characters of `lit`.
fn is_text(a: &[char], lit: &str) -> (r: bool)
    ensures
        r == (a@ == lit@),
{
    let b = chars_of(lit);
    eq_chars(a, b.as_slice())
}

/// Map a Linux filesystem type string to [`FilesystemKind`].
pub fn map_fstype(fs_type: &str) -> (r: FilesystemKind)
    ensures
        r == fstype_kind(fs_type@),
{
    let c = chars_of(fs_type);
    let t = c.as_slice();
    if is_text(t, "ext4") {
        return FilesystemKind::Ext4;
    }
    if is_text(t, "ext3") {
        return FilesystemKind::Ext4;
    }
    if is_text(t, "ext2") {
        return FilesystemKind::Ext4;
    }
    if is_text(t, "btrfs") {
        return FilesystemKind::Btrfs;
    }
    if is_text(t, "xfs") {
        return FilesystemKind::Xfs;
    }
    if is_text(t, "zfs") {
        return FilesystemKind::Zfs;
    }
    if is_text(t, "tmpfs") {
        return FilesystemKind::Tmpfs;
    }
    if is_text(t, "devtmpfs") {
        return FilesystemKind::Tmpfs;
    }
    if is_text(t, "9p") {
        return FilesystemKind::NineP;
    }
    if is_text(t, "nfs") {
        return FilesystemKind::Nfs;
    }
    if is_text(t, "nfs4") {
        return FilesystemKind::Nfs;
    }
    if is_text(t, "overlay") {
        return FilesystemKind::OverlayFs;
    }
    if is_text(t, "ntfs") {
        return FilesystemKind::Ntfs;
    }
    if is_text(t, "ntfs3") {
        return FilesystemKind::Ntfs;
    }
    if is_text(t, "vfat") {
        return FilesystemKind::Fat32;
    }
    if is_text(t, "exfat") {
        return FilesystemKind::ExFat;
    }
    if t.len() >= 4 {
        let head = crate::text::slice_range(t, 0, 4);
        proof {
            assert(head@ =~= t@.take(4));
        }
        if is_text(head.as_slice(), "fuse") {
            return FilesystemKind::Fuse;
        }
    }
    FilesystemKind::Unknown
}

/// Whether a `statfs` answer (or its failure) marks a pseudo-filesystem.
pub fn pseudo_for(magic: Option<i64>) -> (r: bool)
    ensures
        r == match magic {
            Some(m) => is_pseudo_magic(m as int),
            None => false,
        },
{
    match magic {
        Some(m) => pseudo_magic(m),
        None => false,
    }
}

/// Check if a path is on a pseudo-filesystem that should not be indexed
/// (proc, sysfs, debugfs, ...), by its `statfs` magic number.
pub fn is_pseudo_filesystem(path: &str) -> (r: bool) {
    pseudo_for(statfs_type(path))
}

/// The message of a failed mount lookup.
pub open spec fn no_mount_message() -> Seq<char> {
    "no mount entry found for path"@
}

/// `r` is what detection answers for `path` (resolved to `canonical`), given
/// the mount entries and whether `canonical` lies on a pseudo-filesystem: a
/// failure when no mount point is a prefix of `canonical`, a pseudo-filesystem
/// error when it lies on one, and otherwise the kind of the best mount's type.
pub open spec fn is_detection(
    r: Result<FilesystemKind, FsIndexerError>,
    path: Seq<char>,
    canonical: Seq<char>,
    entries: Seq<Seq<Seq<char>>>,
    pseudo: bool,
) -> bool {
    match best_prefix_below(canonical, entries.map_values(|w: Seq<Seq<char>>| w[1]), entries.len() as int) {
        None => r matches Err(FsIndexerError::DetectionFailed { volume, source }) && volume@ == path
            && source@ == no_mount_message(),
        Some(i) => if pseudo {
            r matches Err(FsIndexerError::PseudoFilesystem { path: p, fs_type: f }) && p@ == canonical
                && f@ == entries[i][2]
        } else {
            r == Ok::<FilesystemKind, FsIndexerError>(fstype_kind(entries[i][2]))
        },
    }
}

/// The parsed mounts' points are the entries' second fields.
proof fn lemma_points(mounts: Seq<MountInfo>, entries: Seq<Seq<Seq<char>>>)
    requires
        mounts.len() == entries.len(),
        forall|i: int| 0 <= i < mounts.len() ==> describes(#[trigger] mounts[i], entries[i]),
    ensures
        mount_points(mounts) == entries.map_values(|w: Seq<Seq<char>>| w[1]),
{
    assert(mount_points(mounts) =~= entries.map_values(|w: Seq<Seq<char>>| w[1]));
}

/// Filesystem detection from the mounts text, given whether the resolved path
/// lies on a pseudo-filesystem.
pub fn detect_in_mounts(path: &str, canonical: &str, content: &str, pseudo: bool) -> (r: Result<FilesystemKind, FsIndexerError>)
    ensures
        is_detection(r, path@, canonical@, mount_entries(content@), pseudo),
{
    let mounts = parse_mounts(content);
    proof {
        lemma_points(mounts@, mount_entries(content@));
        lemma_best_prefix_range(canonical@, mount_points(mounts@), mounts@.len() as int);
    }
    match find_mount_for_path(canonical, mounts.as_slice()) {
        None => {
            let source = String::from_str("no mount entry found for path");
            Err(FsIndexerError::DetectionFailed { volume: path.to_string(), source })
        },
        Some(i) => {
            if pseudo {
                Err(FsIndexerError::PseudoFilesystem {
                    path: canonical.to_string(),
                    fs_type: mounts[i].fs_type.clone(),
                })
            } else {
                Ok(map_fstype(mounts[i].fs_type.as_str()))
            }
        },
    }
}

/// Detect the filesystem type for `path` (resolved to `canonical`) from the
/// text of `/proc/mounts`; a path on a pseudo-filesystem is refused.
pub fn detect_filesystem(path: &str, canonical: &str, content: &str) -> (r: Result<FilesystemKind, FsIndexerError>)
    ensures
        is_detection(r, path@, canonical@, mount_entries(content@), true) || is_detection(
            r,
            path@,
            canonical@,
            mount_entries(content@),
            false,
        ),
{
    detect_with_magic(path, canonical, content, statfs_type(canonical))
}

/// Filesystem detection from the mounts text and the `statfs` answer for the
/// resolved path: a path whose mount is found and whose magic names a
/// pseudo-filesystem is refused; a failed `statfs` refuses nothing.
pub fn detect_with_magic(path: &str, canonical: &str, content: &str, magic: Option<i64>) -> (r: Result<FilesystemKind, FsIndexerError>)
    ensures
        is_detection(r, path@, canonical@, mount_entries(content@), match magic {
            Some(m) => is_pseudo_magic(m as int),
            None => false,
        }),
        magic == Some(0x9fa0i64) && best_prefix_below(canonical@, mount_entries(content@).map_values(|w: Seq<Seq<char>>| w[1]), mount_entries(content@).len() as int) is Some
            ==> r matches Err(FsIndexerError::PseudoFilesystem { .. }),
{
    proof {
        lemma_pseudo_magics(0x9fa0);
    }
    let pseudo = pseudo_for(magic);
    detect_in_mounts(path, canonical, content, pseudo)
}

/// The mount entry of `path` (resolved to `canonical`), from the text of
/// `/proc/mounts`.
pub fn parse_mount_info(path: &str, canonical: &str, content: &str) -> (r: Result<MountInfo, FsIndexerError>)
    ensures
        match best_prefix_below(canonical@, mount_entries(content@).map_values(|w: Seq<Seq<char>>| w[1]), mount_entries(content@).len() as int) {
            None => r matches Err(FsIndexerError::DetectionFailed { volume, source }) && volume@ == path@
                && source@ == no_mount_message(),
            Some(i) => r matches Ok(m) && describes(m, mount_entries(content@)[i]),
        },
{
    let mounts = parse_mounts(content);
    proof {
        lemma_points(mounts@, mount_entries(content@));
        lemma_best_prefix_range(canonical@, mount_points(mounts@), mounts@.len() as int);
    }
    match find_mount_for_path(canonical, mounts.as_slice()) {
        None => {
            let source = String::from_str("no mount entry found for path");
            Err(FsIndexerError::DetectionFailed { volume: path.to_string(), source })
        },
        Some(i) => {
            let m = &mounts[i];
            Ok(MountInfo {
                device: m.device.clone(),
                mount_point: m.mount_point.clone(),
                fs_type: m.fs_type.clone(),
                options: m.options.clone(),
            })
        },
    }
}

/// Synthesize a stable fid from a (device, inode) pair: the device times a
/// large odd constant (wrapping), exclusive-or the inode. All 64 bits of the
/// inode are kept.
pub open spec fn fid_of(dev: u64, ino: u64) -> u64 {
    dev.wrapping_mul(0x517c_c1b7_2722_0a95u64) ^ ino
}

/// Synthesize a stable fid from (device, inode).
pub fn make_fid(dev: u64, ino: u64) -> (r: u64)
    ensures
        r == fid_of(dev, ino),
{
    let dev_mixed = dev.wrapping_mul(0x517c_c1b7_2722_0a95u64);
    dev_mixed ^ ino
}

/// Attribute flag that the walk sets on a symbolic link (Linux has no Win32
/// attribute word; only this bit is used).
pub const ATTR_SYMLINK: u32 = 1;

/// How the walk records one directory entry: a symbolic link is never a
/// directory (its target is not followed) and carries `ATTR_SYMLINK`; any
/// other entry keeps its own kind and no attribute bits.
pub fn entry_kind(is_dir: bool, is_symlink: bool) -> (r: (bool, u32))
    ensures
        r.0 == (is_dir && !is_symlink),
        r.1 == (if is_symlink { ATTR_SYMLINK } else { 0u32 }),
{
    if is_symlink {
        (false, ATTR_SYMLINK)
    } else {
        (is_dir, 0)
    }
}

/// On one device, distinct inodes get distinct fids (no 64-bit inode is
/// truncated).
pub proof fn lemma_fid_inode_injective(dev: u64, a: u64, b: u64)
    requires
        a != b,
    ensures
        fid_of(dev, a) != fid_of(dev, b),
{
    let m = dev.wrapping_mul(0x517c_c1b7_2722_0a95u64);
    assert((m ^ a) != (m ^ b)) by (bit_vector)
        requires
            a != b,
    ;
}

/// Multiplying by the fid constant, wrapping, loses no information: the
/// constant is odd, so multiplying by its inverse gives the device back.
proof fn lemma_mix_invertible(d: u64)
    ensures
        d.wrapping_mul(0x517c_c1b7_2722_0a95u64).wrapping_mul(0x2040_003d_7809_70bdu64) == d,
{
    assert(((((d as nat * 0x517c_c1b7_2722_0a95nat) % 0x1_0000_0000_0000_0000nat) as u64) as nat
        * 0x2040_003d_7809_70bdnat) % 0x1_0000_0000_0000_0000nat == d as nat) by (nonlinear_arith);
}

/// The same inode on distinct devices gets distinct fids.
pub proof fn lemma_fid_device_injective(a: u64, b: u64, ino: u64)
    requires
        a != b,
    ensures
        fid_of(a, ino) != fid_of(b, ino),
{
    lemma_mix_invertible(a);
    lemma_mix_invertible(b);
    let ma = a.wrapping_mul(0x517c_c1b7_2722_0a95u64);
    let mb = b.wrapping_mul(0x517c_c1b7_2722_0a95u64);
    assert(ma != mb);
    assert((ma ^ ino) != (mb ^ ino)) by (bit_vector)
        requires
            ma != mb,
    ;
}

/// Calls `std::hash::BuildHasher::hash_one` with the default hasher
/// (`BuildHasherDefault<DefaultHasher>`) on `Path::new(path)`: the same path
/// text gives the same number (the std documentation promises that default
/// hashers built this way agree); the hash itself is named `path_hash`.
#[verifier::external_body]
fn hash_path(path: &str) -> (r: u64)
    ensures
        r == path_hash(path@),
{
    std::hash::BuildHasherDefault::<std::collections::hash_map::DefaultHasher>::default().hash_one(
        std::path::Path::new(path),
    )
}

/// The default hasher's hash of a path.
pub uninterp spec fn path_hash(p: Seq<char>) -> u64;

/// Generate a fid from a path (for deleted files, which can no longer be
/// stat'ed): the default hasher's hash of the path.
pub fn fid_from_path(path: &str) -> (r: u64)
    ensures
        r == path_hash(path@),
{
    hash_path(path)
}

/// Configuration for the Linux filesystem listener.
#[derive(Debug, Clone)]
pub struct LinuxListenerConfig {
    /// Root directory to watch.
    pub root: String,
    /// Capacity of the event channel (default: 10,000).
    pub channel_capacity: usize,
    /// Whether to recursively watch subdirectories (default: true).
    pub recursive: bool,
}

impl Default for LinuxListenerConfig {
    fn default() -> (r: Self)
        ensures
            r.root@ == "/"@,
            r.channel_capacity == 10_000,
            r.recursive,
    {
        LinuxListenerConfig { root: String::from_str("/"), channel_capacity: 10_000, recursive: true }
    }
}

/// Statistics from the enrichment pass.
#[derive(Debug, Clone)]
pub struct EnrichStats {
    /// Number of entries successfully enriched.
    pub enriched: usize,
    /// Number of entries skipped (permission denied, deleted, etc.).
    pub skipped: usize,
}

/// Allocated bytes from `st_blocks`, which counts 512-byte units.
pub fn allocated_from_blocks(blocks: u64) -> (r: u64)
    requires
        blocks <= u64::MAX / 512,
    ensures
        r == blocks * 512,
{
    blocks * 512
}

/// One entry of the enrichment pass: a directory is left as it is; a file
/// whose `lstat` succeeded (`stat` holds its length and its 512-byte block
/// count) gets that size and allocation and counts as enriched; a file whose
/// `lstat` failed counts as skipped. Returns the size and allocation to
/// record.
pub fn enrich_entry(stats: &mut EnrichStats, is_dir: bool, stat: Option<(u64, u64)>) -> (r: Option<(u64, u64)>)
    requires
        old(stats).enriched < usize::MAX,
        old(stats).skipped < usize::MAX,
        stat matches Some((_, blocks)) ==> blocks <= u64::MAX / 512,
    ensures
        is_dir ==> r is None && final(stats).enriched == old(stats).enriched && final(stats).skipped == old(stats).skipped,
        !is_dir ==> match stat {
            Some((len, blocks)) => r == Some((len, (blocks * 512) as u64)) && final(stats).enriched == old(stats).enriched + 1
                && final(stats).skipped == old(stats).skipped,
            None => r is None && final(stats).skipped == old(stats).skipped + 1 && final(stats).enriched == old(stats).enriched,
        },
{
    if is_dir {
        return None;
    }
    match stat {
        Some((len, blocks)) => {
            stats.enriched = stats.enriched + 1;
            Some((len, allocated_from_blocks(blocks)))
        },
        None => {
            stats.skipped = stats.skipped + 1;
            None
        },
    }
}

} // verus!
