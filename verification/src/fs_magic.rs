//! Filesystem type magic numbers, as `statfs(2)` reports them.

use vstd::prelude::*;

verus! {

/// Btrfs.
pub const BTRFS_SUPER_MAGIC: i64 = 0x9123683E;
/// XFS.
pub const XFS_SUPER_MAGIC: i64 = 0x58465342;
/// procfs.
pub const PROC_SUPER_MAGIC: i64 = 0x9fa0;
/// sysfs.
pub const SYSFS_MAGIC: i64 = 0x6265_6572;
/// debugfs.
pub const DEBUGFS_MAGIC: i64 = 0x6462_6720;
/// devpts.
pub const DEVPTS_SUPER_MAGIC: i64 = 0x1cd1;
/// securityfs.
pub const SECURITYFS_MAGIC: i64 = 0x7363_6673;
/// cgroup (v1).
pub const CGROUP_SUPER_MAGIC: i64 = 0x0027_e0eb;
/// cgroup2.
pub const CGROUP2_SUPER_MAGIC: i64 = 0x6367_7270;
/// tracefs.
pub const TRACEFS_MAGIC: i64 = 0x7472_6163;
/// hugetlbfs.
pub const HUGETLBFS_MAGIC: i64 = 0x9584_58f6;
/// binfmt_misc.
pub const BINFMTFS_MAGIC: i64 = 0x4249_4e4d;
/// pstore.
pub const PSTOREFS_MAGIC: i64 = 0x6165_676C;

/// Calls `nix::sys::statfs::statfs` on `path` and returns the filesystem type
/// magic (`Statfs::filesystem_type`), or `None` when the call fails. The answer
/// depends on the machine's mounts, so nothing is promised of it.
#[verifier::external_body]
pub(crate) fn statfs_type(path: &str) -> (r: Option<i64>) {
    match nix::sys::statfs::statfs(path) {
        Ok(s) => Some(s.filesystem_type().0 as i64),
        Err(_) => None,
    }
}

/// Filesystems that can share extents between files (copy-on-write clones).
pub open spec fn is_reflink_magic(m: int) -> bool {
    m == BTRFS_SUPER_MAGIC || m == XFS_SUPER_MAGIC
}

/// Pseudo-filesystems, which hold no user files to index.
pub open spec fn is_pseudo_magic(m: int) -> bool {
    ||| m == PROC_SUPER_MAGIC
    ||| m == SYSFS_MAGIC
    ||| m == DEBUGFS_MAGIC
    ||| m == DEVPTS_SUPER_MAGIC
    ||| m == SECURITYFS_MAGIC
    ||| m == CGROUP_SUPER_MAGIC
    ||| m == CGROUP2_SUPER_MAGIC
    ||| m == TRACEFS_MAGIC
    ||| m == HUGETLBFS_MAGIC
    ||| m == BINFMTFS_MAGIC
    ||| m == PSTOREFS_MAGIC
}

/// Exactly the pseudo-filesystems' magic numbers, as Linux defines them, are
/// refused: procfs `0x9fa0`, sysfs `0x62656572`, debugfs `0x64626720`,
/// devpts `0x1cd1`, securityfs `0x73636673`, cgroup `0x27e0eb`, cgroup2
/// `0x63677270`, tracefs `0x74726163`, hugetlbfs `0x958458f6`, binfmt_misc
/// `0x42494e4d` and pstore `0x6165676c`.
pub proof fn lemma_pseudo_magics(m: int)
    ensures
        is_pseudo_magic(m) <==> (m == 0x9fa0 || m == 0x6265_6572 || m == 0x6462_6720 || m == 0x1cd1
            || m == 0x7363_6673 || m == 0x0027_e0eb || m == 0x6367_7270 || m == 0x7472_6163
            || m == 0x9584_58f6 || m == 0x4249_4e4d || m == 0x6165_676c),
{
}

/// Ordinary filesystems are not refused: ext4, Btrfs, XFS and tmpfs.
pub proof fn lemma_ordinary_magics()
    ensures
        !is_pseudo_magic(0xEF53),
        !is_pseudo_magic(BTRFS_SUPER_MAGIC as int),
        !is_pseudo_magic(XFS_SUPER_MAGIC as int),
        !is_pseudo_magic(0x0102_1994),
{
}

/// Decides whether a magic number names a reflink-capable filesystem.
pub fn reflink_magic(m: i64) -> (r: bool)
    ensures
        r == is_reflink_magic(m as int),
{
    m == BTRFS_SUPER_MAGIC || m == XFS_SUPER_MAGIC
}

/// Decides whether a magic number names a pseudo-filesystem.
pub fn pseudo_magic(m: i64) -> (r: bool)
    ensures
        r == is_pseudo_magic(m as int),
{
    m == PROC_SUPER_MAGIC || m == SYSFS_MAGIC || m == DEBUGFS_MAGIC || m == DEVPTS_SUPER_MAGIC
        || m == SECURITYFS_MAGIC || m == CGROUP_SUPER_MAGIC || m == CGROUP2_SUPER_MAGIC || m
        == TRACEFS_MAGIC || m == HUGETLBFS_MAGIC || m == BINFMTFS_MAGIC || m == PSTOREFS_MAGIC
}

} // verus!
