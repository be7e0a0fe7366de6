//! Parent identifiers for directory walks.
//!
//! A walk finds each entry's parent id by its directory path among the
//! directories met so far (paths are compared by their components, as `Path`
//! equality does). Without an MFT there are no file reference numbers: the
//! fallback scan hands out synthetic ids from [`MIN_SYNTHETIC_FID`] upwards,
//! in walk order.

use vstd::prelude::*;
use crate::dedup::folder_dedup::{parent_key, views, lemma_views_push};
use crate::indexer::windows::MIN_SYNTHETIC_FID;
use crate::path::{components, is_rooted, is_separator, path_components, slashed, to_slashes};
use crate::text::{chars_of, eq_chars, string_of};

verus! {

broadcast use vstd::string::group_string_axioms;

/// A directory as rootedness and components.
pub open spec fn dir_key(p: Seq<char>) -> (bool, Seq<Seq<char>>) {
    (is_rooted(p), components(p))
}

/// The id last registered for directory `k`, if any.
pub open spec fn lookup(dirs: Seq<((bool, Seq<Seq<char>>), u64)>, k: (bool, Seq<Seq<char>>)) -> Option<u64>
    decreases dirs.len(),
{
    if dirs.len() == 0 {
        None
    } else if dirs.last().0 == k {
        Some(dirs.last().1)
    } else {
        lookup(dirs.drop_last(), k)
    }
}

/// The parent id of an entry at `depth` with id `fid`: itself at the root
/// of the walk, else its directory's id, else `fallback`.
pub open spec fn parent_id(dirs: Seq<((bool, Seq<Seq<char>>), u64)>, path: Seq<char>, depth: usize, fid: u64, fallback: u64) -> u64 {
    if depth == 0 {
        fid
    } else {
        match parent_key(path) {
            Some(k) => match lookup(dirs, k) {
                Some(f) => f,
                None => fallback,
            },
            None => fallback,
        }
    }
}

/// Allocation estimate for a volume that does not report it: the size
/// rounded up to whole 4 KiB clusters.
pub open spec fn cluster_rounded(size: u64) -> int {
    if size == 0 {
        0
    } else {
        ((size + 4095) / 4096) * 4096
    }
}

/// Rounds a size up to whole 4 KiB clusters.
pub fn allocated_estimate(size: u64) -> (r: u64)
    requires
        size <= u64::MAX - 4095,
    ensures
        r == cluster_rounded(size),
{
    if size == 0 {
        0
    } else {
        let c = (size + 4095) / 4096;
        proof {
            assert(c * 4096 <= size + 4095) by (nonlinear_arith)
                requires
                    c == (size + 4095) / 4096,
            ;
        }
        c * 4096
    }
}

/// The directories met so far in a walk, with their ids, so that each entry
/// finds its parent's id by its directory path.
pub struct ParentTable {
    dirs: Vec<(bool, Vec<Vec<char>>, u64)>,
}

impl ParentTable {
    /// The directories registered, with their ids, in walk order.
    pub closed spec fn seen_dirs(&self) -> Seq<((bool, Seq<Seq<char>>), u64)> {
        self.dirs@.map_values(|d: (bool, Vec<Vec<char>>, u64)| ((d.0, views(d.1@)), d.2))
    }

    /// No directory registered yet.
    pub fn new() -> (r: Self)
        ensures
            r.seen_dirs() == Seq::<((bool, Seq<Seq<char>>), u64)>::empty(),
    {
        let r = ParentTable { dirs: Vec::new() };
        proof {
            assert(r.seen_dirs() =~= Seq::<((bool, Seq<Seq<char>>), u64)>::empty());
        }
        r
    }

    /// Register directory `path` under `fid`.
    pub fn register(&mut self, path: &str, fid: u64)
        ensures
            final(self).seen_dirs() == old(self).seen_dirs().push((dir_key(path@), fid)),
    {
        let v = chars_of(path);
        let comps = path_components(v.as_slice());
        let rooted = v.len() > 0 && is_separator(v[0]);
        proof {
            assert(views(comps@) =~= components(path@));
        }
        let ghost before = self.seen_dirs();
        self.dirs.push((rooted, comps, fid));
        proof {
            assert(self.seen_dirs() =~= before.push((dir_key(path@), fid)));
        }
    }

    /// The id of directory `(rooted, comps)` last registered, if any.
    fn find(&self, rooted: bool, comps: &Vec<Vec<char>>) -> (r: Option<u64>)
        ensures
            r == lookup(self.seen_dirs(), (rooted, views(comps@))),
    {
        let mut k: usize = self.dirs.len();
        proof {
            assert(self.seen_dirs().take(k as int) =~= self.seen_dirs());
        }
        while k > 0
            invariant
                0 <= k <= self.dirs@.len(),
                lookup(self.seen_dirs(), (rooted, views(comps@))) == lookup(self.seen_dirs().take(k as int), (rooted, views(comps@))),
            decreases k,
        {
            let d = &self.dirs[k - 1];
            let ghost pre = self.seen_dirs().take(k as int);
            proof {
                assert(pre.drop_last() =~= self.seen_dirs().take(k - 1));
                assert(pre.last() == ((d.0, views(d.1@)), d.2));
            }
            if d.0 == rooted && same_comps(&d.1, comps) {
                return Some(d.2);
            }
            k = k - 1;
        }
        None
    }

    /// The parent id of the entry `fid` at `path`, found at `depth` of the
    /// walk: itself at depth 0, else its directory's id, else `fallback`.
    pub fn parent_of(&self, path: &str, depth: usize, fid: u64, fallback: u64) -> (r: u64)
        ensures
            r == parent_id(self.seen_dirs(), path@, depth, fid, fallback),
    {
        if depth == 0 {
            return fid;
        }
        let v = chars_of(path);
        let comps = path_components(v.as_slice());
        let rooted = v.len() > 0 && is_separator(v[0]);
        proof {
            assert(views(comps@) =~= components(path@));
        }
        if comps.len() == 0 {
            return fallback;
        }
        let mut up: Vec<Vec<char>> = Vec::new();
        let mut k: usize = 0;
        while k < comps.len() - 1
            invariant
                0 <= k <= comps@.len() - 1,
                comps@.len() > 0,
                views(up@) == views(comps@).take(k as int),
            decreases comps@.len() - k,
        {
            let c = comps[k].clone();
            proof {
                lemma_views_push(up@, c);
                assert(views(comps@).take(k + 1) =~= views(comps@).take(k as int).push(comps@[k as int]@));
            }
            up.push(c);
            k = k + 1;
        }
        proof {
            assert(views(comps@).take(k as int) =~= views(comps@).drop_last());
        }
        match self.find(rooted, &up) {
            Some(f) => f,
            None => fallback,
        }
    }
}

/// The fallback walk's id state: the next synthetic id and the directories
/// seen.
pub struct SyntheticFids {
    next: u64,
    table: ParentTable,
}

impl SyntheticFids {
    /// The next id to hand out.
    pub closed spec fn next_fid(&self) -> u64 {
        self.next
    }

    /// The directories seen, with their ids, in walk order.
    pub closed spec fn seen_dirs(&self) -> Seq<((bool, Seq<Seq<char>>), u64)> {
        self.table.seen_dirs()
    }

    /// A fresh walk: ids start at [`MIN_SYNTHETIC_FID`], no directory seen.
    pub fn new() -> (r: Self)
        ensures
            r.next_fid() == MIN_SYNTHETIC_FID,
            r.seen_dirs() == Seq::<((bool, Seq<Seq<char>>), u64)>::empty(),
    {
        SyntheticFids { next: MIN_SYNTHETIC_FID, table: ParentTable::new() }
    }

    /// Hand out the next id to the entry at the Windows path `path` (split at
    /// `\` as well as `/`), found at `depth` of the walk; a directory is
    /// registered so that its children find it. An
    /// entry whose directory was not seen gets the walk's root id,
    /// [`MIN_SYNTHETIC_FID`], as parent. Returns the entry's id and its
    /// parent's id.
    pub fn assign(&mut self, path: &str, depth: usize, is_dir: bool) -> (r: (u64, u64))
        requires
            old(self).next_fid() < u64::MAX,
        ensures
            r.0 == old(self).next_fid(),
            r.1 == parent_id(old(self).seen_dirs(), slashed(path@), depth, r.0, MIN_SYNTHETIC_FID),
            final(self).next_fid() == old(self).next_fid() + 1,
            final(self).seen_dirs() == if is_dir {
                old(self).seen_dirs().push((dir_key(slashed(path@)), r.0))
            } else {
                old(self).seen_dirs()
            },
    {
        let fid = self.next;
        self.next = self.next + 1;
        let v = chars_of(path);
        let w = string_of(to_slashes(v.as_slice()).as_slice());
        let parent = self.table.parent_of(w.as_str(), depth, fid, MIN_SYNTHETIC_FID);
        if is_dir {
            self.table.register(w.as_str(), fid);
        }
        (fid, parent)
    }
}

/// Whether two component lists are equal.
fn same_comps(a: &Vec<Vec<char>>, b: &Vec<Vec<char>>) -> (r: bool)
    ensures
        r == (views(a@) == views(b@)),
{
    if a.len() != b.len() {
        proof {
            assert(views(a@).len() != views(b@).len());
        }
        return false;
    }
    let mut i: usize = 0;
    while i < a.len()
        invariant
            0 <= i <= a@.len(),
            a@.len() == b@.len(),
            forall|k: int| 0 <= k < i ==> a@[k]@ == b@[k]@,
        decreases a@.len() - i,
    {
        if !eq_chars(a[i].as_slice(), b[i].as_slice()) {
            proof {
                assert(views(a@)[i as int] != views(b@)[i as int]);
            }
            return false;
        }
        i = i + 1;
    }
    proof {
        assert(views(a@) =~= views(b@));
    }
    true
}

} // verus!
