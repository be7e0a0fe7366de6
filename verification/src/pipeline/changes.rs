//! Dispatching a batch of file-system changes.
//!
//! A batch is split into created, deleted, moved and modified entries.
//! Created entries are placed (a sparse entry gets its path from its parent)
//! and handed to the pipeline; deleted entries are removed from the store by
//! fid, then by path; moved entries are relocated; modified entries are
//! re-processed under their known path. The store is driven by the caller:
//! the functions here decide what to ask it and what each answer means for
//! the statistics and the fid map.

use vstd::prelude::*;
use crate::indexer::linux_events::join_name;
use crate::path::{extension, file_name, parent_path, path_extension, path_parent};
use crate::pipeline::fid_map::{fid_as_i64, seeded, FidMap};
use crate::pipeline::{location_digest, location_id_for_entry, ChangeStats, NO_PARENT_FID};
use vstd::utf8::encode_utf8;
use crate::text::{chars_of, string_of};

verus! {

broadcast use vstd::string::group_string_axioms;

/// One change, as far as dispatching it needs.
pub enum ChangeEvent {
    /// A new entry; `full_path` is empty for a sparse entry.
    Created { fid: u64, parent_fid: u64, name: String, full_path: String },
    /// A deleted entry, with its last path where the source knows it.
    Deleted { fid: u64, path: Option<String> },
    /// A moved or renamed entry.
    Moved { fid: u64, new_parent_fid: u64, new_name: String },
    /// A modified file.
    Modified { fid: u64, new_size: u64 },
    /// The source lost track; the volume must be scanned again.
    FullRescanNeeded,
}

/// The kind of a change: 0 created, 1 deleted, 2 moved, 3 modified,
/// 4 rescan.
pub open spec fn kind_of(e: ChangeEvent) -> nat {
    match e {
        ChangeEvent::Created { .. } => 0,
        ChangeEvent::Deleted { .. } => 1,
        ChangeEvent::Moved { .. } => 2,
        ChangeEvent::Modified { .. } => 3,
        ChangeEvent::FullRescanNeeded => 4,
    }
}

/// The positions of the changes of kind `k` in `s`, in order.
pub open spec fn positions_of(s: Seq<ChangeEvent>, k: nat) -> Seq<usize>
    decreases s.len(),
{
    if s.len() == 0 {
        seq![]
    } else {
        let prev = positions_of(s.drop_last(), k);
        if kind_of(s.last()) == k {
            prev.push((s.len() - 1) as usize)
        } else {
            prev
        }
    }
}

/// A batch split by kind: the positions of each kind, in order.
pub struct ChangeBuckets {
    pub creates: Vec<usize>,
    pub deletes: Vec<usize>,
    pub moves: Vec<usize>,
    pub modifies: Vec<usize>,
    pub rescan_needed: bool,
}

/// Split a batch by kind; a rescan request anywhere in it sets
/// `rescan_needed`.
pub fn partition_changes(changes: &[ChangeEvent]) -> (r: ChangeBuckets)
    ensures
        r.creates@ == positions_of(changes@, 0),
        r.deletes@ == positions_of(changes@, 1),
        r.moves@ == positions_of(changes@, 2),
        r.modifies@ == positions_of(changes@, 3),
        r.rescan_needed == exists|i: int| 0 <= i < changes@.len() && kind_of(#[trigger] changes@[i]) == 4,
{
    let mut creates: Vec<usize> = Vec::new();
    let mut deletes: Vec<usize> = Vec::new();
    let mut moves: Vec<usize> = Vec::new();
    let mut modifies: Vec<usize> = Vec::new();
    let mut rescan_needed = false;
    let mut i: usize = 0;
    while i < changes.len()
        invariant
            0 <= i <= changes@.len(),
            creates@ == positions_of(changes@.take(i as int), 0),
            deletes@ == positions_of(changes@.take(i as int), 1),
            moves@ == positions_of(changes@.take(i as int), 2),
            modifies@ == positions_of(changes@.take(i as int), 3),
            rescan_needed == exists|j: int| 0 <= j < i && kind_of(#[trigger] changes@[j]) == 4,
        decreases changes@.len() - i,
    {
        proof {
            let t = changes@.take(i + 1);
            assert(t.drop_last() =~= changes@.take(i as int));
            assert(t.last() == changes@[i as int]);
            assert((t.len() - 1) as usize == i);
        }
        match &changes[i] {
            ChangeEvent::Created { .. } => creates.push(i),
            ChangeEvent::Deleted { .. } => deletes.push(i),
            ChangeEvent::Moved { .. } => moves.push(i),
            ChangeEvent::Modified { .. } => modifies.push(i),
            ChangeEvent::FullRescanNeeded => {
                rescan_needed = true;
            },
        }
        i = i + 1;
    }
    proof {
        assert(changes@.take(changes@.len() as int) =~= changes@);
    }
    ChangeBuckets { creates, deletes, moves, modifies, rescan_needed }
}

/// Where a created entry goes: its own path when it has one, else its name
/// inside its parent's known path; `None` when neither is known.
pub open spec fn created_path(paths: Map<u64, Seq<char>>, parent_fid: u64, name: Seq<char>, full_path: Seq<char>) -> Option<Seq<char>> {
    if full_path.len() > 0 {
        Some(full_path)
    } else if paths.contains_key(parent_fid) {
        Some(join_name(paths[parent_fid], name))
    } else {
        None
    }
}

/// The fid map, and the placed entries (position and path), after placing
/// the created entries of `s` in order; each placed entry is recorded under
/// its fid before the next one is placed.
pub open spec fn placed(paths: Map<u64, Seq<char>>, s: Seq<ChangeEvent>) -> (Map<u64, Seq<char>>, Seq<(usize, Seq<char>)>)
    decreases s.len(),
{
    if s.len() == 0 {
        (paths, seq![])
    } else {
        let (m, out) = placed(paths, s.drop_last());
        match s.last() {
            ChangeEvent::Created { fid, parent_fid, name, full_path } => match created_path(m, parent_fid, name@, full_path@) {
                Some(p) => (m.insert(fid, p), out.push(((s.len() - 1) as usize, p))),
                None => (m, out),
            },
            _ => (m, out),
        }
    }
}

/// The placed entries with their paths as character sequences.
pub open spec fn placed_view(s: Seq<(usize, String)>) -> Seq<(usize, Seq<char>)> {
    s.map_values(|x: (usize, String)| (x.0, x.1@))
}

/// The counters other than those named are as before.
pub open spec fn same_counts(a: ChangeStats, b: ChangeStats) -> bool {
    &&& a.created == b.created
    &&& a.deleted == b.deleted
    &&& a.moved == b.moved
    &&& a.modified == b.modified
    &&& a.errors == b.errors
    &&& a.rescan_needed == b.rescan_needed
}

/// What the store answered to a request to delete a location.
pub enum StoreAnswer {
    /// The location was removed; the id of the object it pointed to.
    Removed(String),
    /// No such location.
    NotFound,
    /// The store failed.
    Failed,
}

/// Whether a deletion goes on to the lookup by path: the entry has a path
/// and the lookup by fid (`None`: not tried, the fid does not fit the
/// store's ids) neither removed it nor failed.
pub open spec fn wants_path_lookup(by_fid: Option<StoreAnswer>, has_path: bool) -> bool {
    has_path && match by_fid {
        Some(StoreAnswer::Removed(_)) => false,
        Some(StoreAnswer::Failed) => false,
        _ => true,
    }
}

/// The object whose location a deletion removed, if any.
pub open spec fn removed_object(by_fid: Option<StoreAnswer>, by_path: Option<StoreAnswer>) -> Option<Seq<char>> {
    match by_fid {
        Some(StoreAnswer::Removed(o)) => Some(o@),
        Some(StoreAnswer::Failed) => None,
        _ => match by_path {
            Some(StoreAnswer::Removed(o)) => Some(o@),
            _ => None,
        },
    }
}

/// Whether a deletion failed: the first lookup that answered failed.
pub open spec fn delete_failed(by_fid: Option<StoreAnswer>, by_path: Option<StoreAnswer>) -> bool {
    match by_fid {
        Some(StoreAnswer::Failed) => true,
        Some(StoreAnswer::Removed(_)) => false,
        _ => by_path matches Some(StoreAnswer::Failed),
    }
}

/// Whether the lookup by path is to be made after the lookup by fid
/// answered `by_fid`.
pub fn path_lookup_needed(by_fid: &Option<StoreAnswer>, path: &Option<String>) -> (r: bool)
    ensures
        r == wants_path_lookup(*by_fid, path is Some),
{
    match path {
        None => false,
        Some(_) => match by_fid {
            Some(StoreAnswer::Removed(_)) => false,
            Some(StoreAnswer::Failed) => false,
            _ => true,
        },
    }
}

/// What the store answered to a request to relocate a location.
pub enum MoveAnswer {
    /// The location now has the new path.
    Relocated,
    /// No location with that fid.
    NotFound,
    /// The store failed.
    Failed,
}

/// How a moved entry is relocated.
pub struct MovePlan {
    /// The fid as the store's signed id.
    pub fid_key: i64,
    /// The new full path.
    pub new_path: String,
    /// The new name.
    pub new_name: String,
    /// The extension of the new path.
    pub extension: Option<String>,
    /// The location id of the new path on the processor's volume.
    pub location_id: [u8; 32],
    /// The location id of the new path's parent directory, where it has one.
    pub parent_location_id: Option<[u8; 32]>,
}

/// How a modified entry is re-processed: as an entry with its known path,
/// its file name and its new size, with no parent row and no attributes.
pub struct ModifyPlan {
    pub fid: u64,
    pub parent_fid: u64,
    pub path: String,
    pub name: String,
    pub size: u64,
    pub allocated_size: u64,
    pub attributes: u32,
}

/// Dispatches batched changes for one volume; keeps the fid → path map that
/// sparse entries are resolved against.
pub struct ChangeProcessor {
    volume_id: String,
    fid_map: FidMap,
}

impl ChangeProcessor {
    /// The known paths by fid.
    pub closed spec fn paths(&self) -> Map<u64, Seq<char>> {
        self.fid_map.paths()
    }

    /// The volume this processor serves.
    pub closed spec fn volume(&self) -> Seq<char> {
        self.volume_id@
    }

    /// A processor for `volume_id` with an empty fid map.
    pub fn new(volume_id: String) -> (r: Self)
        ensures
            r.volume() == volume_id@,
            r.paths() == Map::<u64, Seq<char>>::empty(),
    {
        ChangeProcessor { volume_id, fid_map: FidMap::new() }
    }

    /// The volume id.
    pub fn volume_id(&self) -> (r: &str)
        ensures
            r@ == self.volume(),
    {
        self.volume_id.as_str()
    }

    /// Populate the fid map from scan results (fid and full path of each
    /// entry, a later entry for a fid winning).
    pub fn seed_fid_map(&mut self, entries: &[(u64, String)])
        ensures
            final(self).paths() == seeded(old(self).paths(), entries@),
            final(self).volume() == old(self).volume(),
    {
        self.fid_map.seed(entries);
    }

    /// The path of `fid`, if known.
    pub fn get_path(&self, fid: u64) -> (r: Option<String>)
        ensures
            match r {
                Some(p) => self.paths().contains_key(fid) && p@ == self.paths()[fid],
                None => !self.paths().contains_key(fid),
            },
    {
        self.fid_map.get_path(fid)
    }

    /// The path of `name` inside the directory `parent_fid`, if known.
    pub fn resolve_path(&self, parent_fid: u64, name: &str) -> (r: Option<String>)
        ensures
            match r {
                Some(p) => self.paths().contains_key(parent_fid) && p@ == join_name(self.paths()[parent_fid], name@),
                None => !self.paths().contains_key(parent_fid),
            },
    {
        self.fid_map.resolve_path(parent_fid, name)
    }

    /// Place the created entries of a batch, in order: each gets its path
    /// (a sparse one from its parent) and is recorded in the fid map; those
    /// that cannot be placed count as errors. Returns the position and path
    /// of each placed entry.
    pub fn place_creates(&mut self, changes: &[ChangeEvent], stats: &mut ChangeStats) -> (r: Vec<(usize, String)>)
        requires
            old(stats).errors + changes@.len() <= usize::MAX,
        ensures
            final(self).paths() == placed(old(self).paths(), changes@).0,
            placed_view(r@) == placed(old(self).paths(), changes@).1,
            final(self).volume() == old(self).volume(),
            final(stats).errors == old(stats).errors + positions_of(changes@, 0).len() - r@.len(),
            ({
                let s = *final(stats);
                let o = *old(stats);
                same_counts(ChangeStats { errors: o.errors, ..s }, o)
            }),
    {
        let ghost start = self.paths();
        let mut out: Vec<(usize, String)> = Vec::new();
        let mut i: usize = 0;
        while i < changes.len()
            invariant
                0 <= i <= changes@.len(),
                old(stats).errors + changes@.len() <= usize::MAX,
                self.volume() == old(self).volume(),
                start == old(self).paths(),
                self.paths() == placed(start, changes@.take(i as int)).0,
                placed_view(out@) == placed(start, changes@.take(i as int)).1,
                out@.len() <= positions_of(changes@.take(i as int), 0).len() <= i,
                stats.errors == old(stats).errors + positions_of(changes@.take(i as int), 0).len() - out@.len(),
                ({
                    let s = *stats;
                    let o = *old(stats);
                    same_counts(ChangeStats { errors: o.errors, ..s }, o)
                }),
            decreases changes@.len() - i,
        {
            proof {
                let t = changes@.take(i + 1);
                assert(t.drop_last() =~= changes@.take(i as int));
                assert(t.last() == changes@[i as int]);
                assert((t.len() - 1) as usize == i);
            }
            match &changes[i] {
                ChangeEvent::Created { fid, parent_fid, name, full_path } => {
                    let p = self.fid_map.place_created(*fid, *parent_fid, name.as_str(), full_path.clone());
                    match p {
                        Some(path) => {
                            let ghost before = out@;
                            out.push((i, path));
                            proof {
                                assert(placed_view(out@) =~= placed_view(before).push((i, out@.last().1@)));
                            }
                        },
                        None => {
                            stats.errors = stats.errors + 1;
                        },
                    }
                },
                _ => {},
            }
            i = i + 1;
        }
        proof {
            assert(changes@.take(changes@.len() as int) =~= changes@);
        }
        out
    }

    /// Settle one deletion, given what the lookup by fid answered (`None`:
    /// not tried) and what the lookup by path answered (`None`: not made).
    /// A removed location counts as deleted, its object becomes an orphan
    /// candidate and its fid leaves the map; a failure counts as an error.
    pub fn settle_delete(
        &mut self,
        stats: &mut ChangeStats,
        orphans: &mut Vec<String>,
        fid: u64,
        by_fid: Option<StoreAnswer>,
        by_path: Option<StoreAnswer>,
    )
        requires
            old(stats).deleted < usize::MAX,
            old(stats).errors < usize::MAX,
        ensures
            final(self).volume() == old(self).volume(),
            match removed_object(by_fid, by_path) {
                Some(o) => {
                    &&& final(stats).deleted == old(stats).deleted + 1
                    &&& same_counts(ChangeStats { deleted: old(stats).deleted, ..*final(stats) }, *old(stats))
                    &&& final(orphans)@.len() == old(orphans)@.len() + 1
                    &&& final(orphans)@.drop_last() == old(orphans)@
                    &&& final(orphans)@.last()@ == o
                    &&& final(self).paths() == old(self).paths().remove(fid)
                },
                None => {
                    &&& final(orphans)@ == old(orphans)@
                    &&& final(self).paths() == old(self).paths()
                    &&& delete_failed(by_fid, by_path) ==> final(stats).errors == old(stats).errors + 1
                        && same_counts(ChangeStats { errors: old(stats).errors, ..*final(stats) }, *old(stats))
                    &&& !delete_failed(by_fid, by_path) ==> same_counts(*final(stats), *old(stats))
                },
            },
    {
        let removed: Option<String> = match by_fid {
            Some(StoreAnswer::Removed(o)) => Some(o),
            Some(StoreAnswer::Failed) => {
                stats.errors = stats.errors + 1;
                return;
            },
            _ => match by_path {
                Some(StoreAnswer::Removed(o)) => Some(o),
                Some(StoreAnswer::Failed) => {
                    stats.errors = stats.errors + 1;
                    return;
                },
                _ => None,
            },
        };
        if let Some(o) = removed {
            stats.deleted = stats.deleted + 1;
            orphans.push(o);
            self.fid_map.remove(fid);
        }
    }

    /// Plan the relocation of a moved entry: its new path is its new name
    /// inside the new parent's known path. `None`, counted as an error, when
    /// the new parent is unknown or the fid does not fit the store's ids.
    pub fn plan_move(&self, stats: &mut ChangeStats, fid: u64, new_parent_fid: u64, new_name: &str) -> (r: Option<MovePlan>)
        requires
            old(stats).errors < usize::MAX,
        ensures
            (r is Some) == (self.paths().contains_key(new_parent_fid) && fid <= i64::MAX),
            r is Some ==> ({
                let p = r->0;
                &&& p.fid_key == fid as i64
                &&& p.new_path@ == join_name(self.paths()[new_parent_fid], new_name@)
                &&& p.new_name@ == new_name@
                &&& match p.extension {
                    Some(e) => extension(p.new_path@) == Some(e@),
                    None => extension(p.new_path@) is None,
                }
                &&& p.location_id@ == location_digest(encode_utf8(self.volume()), encode_utf8(p.new_path@))
                &&& match path_parent(p.new_path@) {
                    Some(pp) => p.parent_location_id matches Some(id) && id@ == location_digest(
                        encode_utf8(self.volume()),
                        encode_utf8(pp),
                    ),
                    None => p.parent_location_id is None,
                }
                &&& same_counts(*final(stats), *old(stats))
            }),
            r is None ==> final(stats).errors == old(stats).errors + 1
                && same_counts(ChangeStats { errors: old(stats).errors, ..*final(stats) }, *old(stats)),
    {
        let new_path = match self.fid_map.resolve_path(new_parent_fid, new_name) {
            Some(p) => p,
            None => {
                stats.errors = stats.errors + 1;
                return None;
            },
        };
        let fid_key = match fid_as_i64(fid) {
            Some(k) => k,
            None => {
                stats.errors = stats.errors + 1;
                return None;
            },
        };
        let v = chars_of(new_path.as_str());
        let extension = match path_extension(v.as_slice()) {
            Some(e) => Some(string_of(e.as_slice())),
            None => None,
        };
        let new_name = string_of(chars_of(new_name).as_slice());
        let location_id = location_id_for_entry(self.volume_id.as_str(), new_path.as_str().as_bytes());
        let parent_location_id = match parent_path(v.as_slice()) {
            Some(pp) => {
                let ps = string_of(pp.as_slice());
                Some(location_id_for_entry(self.volume_id.as_str(), ps.as_str().as_bytes()))
            },
            None => None,
        };
        Some(MovePlan { fid_key, new_path, new_name, extension, location_id, parent_location_id })
    }

    /// Settle one relocation: a relocated entry counts as moved and its fid
    /// maps to its new path; a failure counts as an error; a missing
    /// location changes nothing.
    pub fn settle_move(&mut self, stats: &mut ChangeStats, fid: u64, new_path: String, answer: MoveAnswer)
        requires
            old(stats).moved < usize::MAX,
            old(stats).errors < usize::MAX,
        ensures
            final(self).volume() == old(self).volume(),
            match answer {
                MoveAnswer::Relocated => {
                    &&& final(stats).moved == old(stats).moved + 1
                    &&& same_counts(ChangeStats { moved: old(stats).moved, ..*final(stats) }, *old(stats))
                    &&& final(self).paths() == old(self).paths().insert(fid, new_path@)
                },
                MoveAnswer::NotFound => same_counts(*final(stats), *old(stats)) && final(self).paths() == old(self).paths(),
                MoveAnswer::Failed => {
                    &&& final(stats).errors == old(stats).errors + 1
                    &&& same_counts(ChangeStats { errors: old(stats).errors, ..*final(stats) }, *old(stats))
                    &&& final(self).paths() == old(self).paths()
                },
            },
    {
        match answer {
            MoveAnswer::Relocated => {
                stats.moved = stats.moved + 1;
                self.fid_map.insert(fid, new_path);
            },
            MoveAnswer::NotFound => {},
            MoveAnswer::Failed => {
                stats.errors = stats.errors + 1;
            },
        }
    }

    /// Plan the re-processing of a modified entry under its known path.
    /// `None`, counted as an error, when its path is unknown or has no file
    /// name (a volume root).
    pub fn plan_modify(&self, stats: &mut ChangeStats, fid: u64, new_size: u64) -> (r: Option<ModifyPlan>)
        requires
            old(stats).errors < usize::MAX,
        ensures
            (r is Some) == (self.paths().contains_key(fid) && file_name(self.paths()[fid]) is Some),
            r is Some ==> ({
                let p = r->0;
                &&& p.fid == fid
                &&& p.parent_fid == NO_PARENT_FID
                &&& p.path@ == self.paths()[fid]
                &&& file_name(p.path@) == Some(p.name@)
                &&& p.size == new_size
                &&& p.allocated_size == new_size
                &&& p.attributes == 0
                &&& same_counts(*final(stats), *old(stats))
            }),
            r is None ==> final(stats).errors == old(stats).errors + 1
                && same_counts(ChangeStats { errors: old(stats).errors, ..*final(stats) }, *old(stats)),
    {
        match self.fid_map.modify_target(fid) {
            Some((path, name)) => Some(
                ModifyPlan { fid, parent_fid: NO_PARENT_FID, path, name, size: new_size, allocated_size: new_size, attributes: 0 },
            ),
            None => {
                stats.errors = stats.errors + 1;
                None
            },
        }
    }
}

/// Count the outcome of handing `placed` created entries to the pipeline:
/// all created when it succeeded, all errors when it failed.
pub fn settle_creates(stats: &mut ChangeStats, placed: usize, processed: bool)
    requires
        old(stats).created + placed <= usize::MAX,
        old(stats).errors + placed <= usize::MAX,
    ensures
        processed ==> final(stats).created == old(stats).created + placed
            && same_counts(ChangeStats { created: old(stats).created, ..*final(stats) }, *old(stats)),
        !processed ==> final(stats).errors == old(stats).errors + placed
            && same_counts(ChangeStats { errors: old(stats).errors, ..*final(stats) }, *old(stats)),
{
    if processed {
        stats.created = stats.created + placed;
    } else {
        stats.errors = stats.errors + placed;
    }
}

/// Count the outcome of removing the orphaned objects of `count`
/// deletions: each counts as an error when the cleanup failed.
pub fn settle_orphans(stats: &mut ChangeStats, count: usize, cleaned: bool)
    requires
        old(stats).errors + count <= usize::MAX,
    ensures
        cleaned ==> same_counts(*final(stats), *old(stats)),
        !cleaned ==> final(stats).errors == old(stats).errors + count
            && same_counts(ChangeStats { errors: old(stats).errors, ..*final(stats) }, *old(stats)),
{
    if !cleaned {
        stats.errors = stats.errors + count;
    }
}

/// Count the outcome of re-processing one modified entry.
pub fn settle_modify(stats: &mut ChangeStats, processed: bool)
    requires
        old(stats).modified < usize::MAX,
        old(stats).errors < usize::MAX,
    ensures
        processed ==> final(stats).modified == old(stats).modified + 1
            && same_counts(ChangeStats { modified: old(stats).modified, ..*final(stats) }, *old(stats)),
        !processed ==> final(stats).errors == old(stats).errors + 1
            && same_counts(ChangeStats { errors: old(stats).errors, ..*final(stats) }, *old(stats)),
{
    if processed {
        stats.modified = stats.modified + 1;
    } else {
        stats.errors = stats.errors + 1;
    }
}

} // verus!
