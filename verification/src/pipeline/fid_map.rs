//! The change processor's map from file ids to paths.
//!
//! Seeded from the initial scan, it resolves sparse entries (a parent fid and
//! a name) to full paths and follows creations, deletions and moves so that
//! later changes in a batch see the paths that earlier ones produced.

use vstd::prelude::*;
use std::collections::HashMap;
use crate::indexer::linux_events::{join_name, join_path};
use crate::path::{file_name, path_file_name};
use crate::text::{chars_of, string_of};

verus! {

broadcast use {vstd::string::group_string_axioms, vstd::std_specs::hash::group_hash_axioms};

/// The map after seeding `m` with `entries` in order (a later entry for a
/// fid wins).
pub open spec fn seeded(m: Map<u64, Seq<char>>, entries: Seq<(u64, String)>) -> Map<u64, Seq<char>>
    decreases entries.len(),
{
    if entries.len() == 0 {
        m
    } else {
        seeded(m, entries.drop_last()).insert(entries.last().0, entries.last().1@)
    }
}

/// The fid → path map.
pub struct FidMap {
    map: HashMap<u64, String>,
}

impl FidMap {
    /// The known paths by fid.
    pub closed spec fn paths(&self) -> Map<u64, Seq<char>> {
        self.map@.map_values(|s: String| s@)
    }

    /// An empty map.
    pub fn new() -> (r: Self)
        ensures
            r.paths() == Map::<u64, Seq<char>>::empty(),
    {
        let r = FidMap { map: HashMap::new() };
        proof {
            assert(r.paths() =~= Map::<u64, Seq<char>>::empty());
        }
        r
    }

    /// Record the path of `fid`.
    pub fn insert(&mut self, fid: u64, path: String)
        ensures
            final(self).paths() == old(self).paths().insert(fid, path@),
    {
        self.map.insert(fid, path);
        proof {
            assert(self.paths() =~= old(self).paths().insert(fid, path@));
        }
    }

    /// Forget the path of `fid`.
    pub fn remove(&mut self, fid: u64)
        ensures
            final(self).paths() == old(self).paths().remove(fid),
    {
        self.map.remove(&fid);
        proof {
            assert(self.paths() =~= old(self).paths().remove(fid));
        }
    }

    /// Populate the map from scan results (fid and full path of each entry).
    pub fn seed(&mut self, entries: &[(u64, String)])
        ensures
            final(self).paths() == seeded(old(self).paths(), entries@),
    {
        let mut i: usize = 0;
        while i < entries.len()
            invariant
                0 <= i <= entries@.len(),
                self.paths() == seeded(old(self).paths(), entries@.take(i as int)),
            decreases entries@.len() - i,
        {
            proof {
                assert(entries@.take(i + 1).drop_last() =~= entries@.take(i as int));
                assert(entries@.take(i + 1).last() == entries@[i as int]);
            }
            let fid = entries[i].0;
            let path = entries[i].1.clone();
            self.insert(fid, path);
            i = i + 1;
        }
        proof {
            assert(entries@.take(entries@.len() as int) =~= entries@);
        }
    }

    /// The path of `fid`, if known.
    pub fn get_path(&self, fid: u64) -> (r: Option<String>)
        ensures
            match r {
                Some(p) => self.paths().contains_key(fid) && p@ == self.paths()[fid],
                None => !self.paths().contains_key(fid),
            },
    {
        match self.map.get(&fid) {
            Some(p) => Some(p.clone()),
            None => None,
        }
    }

    /// The path of `name` inside the directory `parent_fid`, if the
    /// directory is known.
    pub fn resolve_path(&self, parent_fid: u64, name: &str) -> (r: Option<String>)
        ensures
            match r {
                Some(p) => self.paths().contains_key(parent_fid) && p@ == join_name(self.paths()[parent_fid], name@),
                None => !self.paths().contains_key(parent_fid),
            },
    {
        match self.map.get(&parent_fid) {
            Some(parent) => Some(join_path(parent.as_str(), name)),
            None => None,
        }
    }

    /// Place a created entry: an entry without a path gets the path of its
    /// name inside its parent; the entry's path is recorded under its fid.
    /// `None` (and no change) when the path is missing and the parent is
    /// unknown: such an entry counts as an error.
    pub fn place_created(&mut self, fid: u64, parent_fid: u64, name: &str, full_path: String) -> (r: Option<String>)
        ensures
            full_path@.len() > 0 ==> r == Some(full_path) && final(self).paths() == old(self).paths().insert(fid, full_path@),
            full_path@.len() == 0 && old(self).paths().contains_key(parent_fid) ==> {
                &&& r is Some
                &&& r->0@ == join_name(old(self).paths()[parent_fid], name@)
                &&& final(self).paths() == old(self).paths().insert(fid, r->0@)
            },
            full_path@.len() == 0 && !old(self).paths().contains_key(parent_fid) ==> r is None && final(self).paths() == old(self).paths(),
    {
        if chars_of(full_path.as_str()).len() > 0 {
            let kept = full_path.clone();
            self.insert(fid, full_path);
            return Some(kept);
        }
        match self.resolve_path(parent_fid, name) {
            Some(p) => {
                let kept = p.clone();
                self.insert(fid, p);
                Some(kept)
            },
            None => None,
        }
    }

    /// Where a modified entry is re-processed: its path and file name.
    /// `None` when the path is unknown or has no file name (a volume root);
    /// such an entry counts as an error.
    pub fn modify_target(&self, fid: u64) -> (r: Option<(String, String)>)
        ensures
            match r {
                Some((p, n)) => self.paths().contains_key(fid) && p@ == self.paths()[fid] && file_name(p@) == Some(n@) && n@.len() > 0,
                None => !self.paths().contains_key(fid) || file_name(self.paths()[fid]) is None,
            },
    {
        let path = match self.get_path(fid) {
            Some(p) => p,
            None => {
                return None;
            },
        };
        let v = chars_of(path.as_str());
        match path_file_name(v.as_slice()) {
            Some(n) => {
                proof {
                    crate::path::lemma_file_name_nonempty(path@);
                }
                let name = string_of(n.as_slice());
                Some((path, name))
            },
            None => None,
        }
    }
}

/// The fid as the signed id the database stores, when it fits.
pub fn fid_as_i64(fid: u64) -> (r: Option<i64>)
    ensures
        fid <= i64::MAX ==> r == Some(fid as i64),
        fid > i64::MAX ==> r is None,
{
    if fid <= 0x7fff_ffff_ffff_ffff {
        Some(fid as i64)
    } else {
        None
    }
}

} // verus!
