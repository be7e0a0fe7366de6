//! How the object pipeline lays out a batch of index entries before the
//! database sees them: which entries take part, in what order, how they are
//! counted, and what goes into their rows.

use vstd::prelude::*;
use crate::pipeline::batch_hash::{
    assemble_batch, batch_outcome, dirs_in, empty_files_in, lemma_batch_accounts, outcome_of, read_positions,
    BatchHashResult, HashInput,
};
use crate::pipeline::{PipelineConfig, NO_PARENT_FID};

verus! {

/// Entry `i` takes part: directories are left out when configured so.
pub open spec fn takes_part(is_dir: Seq<bool>, i: int, skip_directories: bool) -> bool {
    !(skip_directories && is_dir[i])
}

/// `a` comes before `b` in processing order: shallower first, then in input
/// order.
pub open spec fn before(depths: Seq<usize>, a: int, b: int) -> bool {
    depths[a] < depths[b] || (depths[a] == depths[b] && a < b)
}

/// The greatest depth.
fn max_depth_of(depths: &[usize]) -> (m: usize)
    ensures
        forall|i: int| 0 <= i < depths@.len() ==> depths@[i] <= m,
{
    let mut m: usize = 0;
    let mut i: usize = 0;
    while i < depths.len()
        invariant
            0 <= i <= depths@.len(),
            forall|k: int| 0 <= k < i ==> depths@[k] <= m,
        decreases depths@.len() - i,
    {
        if depths[i] > m {
            m = depths[i];
        }
        i = i + 1;
    }
    m
}

/// The entries that take part, parents before children: sorted by path
/// depth, entries of equal depth in input order (a stable sort by depth).
pub fn processing_order(is_dir: &[bool], depths: &[usize], skip_directories: bool) -> (r: Vec<usize>)
    requires
        is_dir@.len() == depths@.len(),
    ensures
        forall|k: int| 0 <= k < r@.len() ==> (#[trigger] r@[k]) < depths@.len() && takes_part(is_dir@, r@[k] as int, skip_directories),
        forall|i: int| 0 <= i < depths@.len() && takes_part(is_dir@, i, skip_directories) ==> r@.contains(i as usize),
        forall|a: int, b: int| 0 <= a < b < r@.len() ==> before(depths@, (#[trigger] r@[a]) as int, (#[trigger] r@[b]) as int),
{
    let mut out: Vec<usize> = Vec::new();
    if depths.len() == 0 {
        return out;
    }
    let max = max_depth_of(depths);
    let mut d: usize = 0;
    loop
        invariant
            is_dir@.len() == depths@.len(),
            d <= max,
            forall|i: int| 0 <= i < depths@.len() ==> depths@[i] <= max,
            forall|k: int| 0 <= k < out@.len() ==> (#[trigger] out@[k]) < depths@.len() && takes_part(is_dir@, out@[k] as int, skip_directories)
                && depths@[out@[k] as int] < d,
            forall|i: int| 0 <= i < depths@.len() && takes_part(is_dir@, i, skip_directories) && depths@[i] < d ==> out@.contains(i as usize),
            forall|a: int, b: int| 0 <= a < b < out@.len() ==> before(depths@, (#[trigger] out@[a]) as int, (#[trigger] out@[b]) as int),
        decreases max - d,
    {
        let ghost start = out@;
        let mut i: usize = 0;
        while i < depths.len()
            invariant
                0 <= i <= depths@.len(),
                is_dir@.len() == depths@.len(),
                d <= max,
                start.len() <= out@.len(),
                forall|k: int| 0 <= k < start.len() ==> out@[k] == start[k],
                forall|k: int| 0 <= k < start.len() ==> (#[trigger] start[k]) < depths@.len() && depths@[start[k] as int] < d,
                forall|k: int| start.len() <= k < out@.len() ==> (#[trigger] out@[k]) < i && depths@[out@[k] as int] == d
                    && takes_part(is_dir@, out@[k] as int, skip_directories),
                forall|j: int| 0 <= j < i && takes_part(is_dir@, j, skip_directories) && depths@[j] == d ==> out@.contains(j as usize),
                forall|a: int, b: int| 0 <= a < b < out@.len() ==> before(depths@, (#[trigger] out@[a]) as int, (#[trigger] out@[b]) as int),
                forall|k: int| 0 <= k < out@.len() ==> (#[trigger] out@[k]) < depths@.len() && takes_part(is_dir@, out@[k] as int, skip_directories),
            decreases depths@.len() - i,
        {
            if depths[i] == d && !(skip_directories && is_dir[i]) {
                let ghost before_push = out@;
                out.push(i);
                proof {
                    assert forall|a: int, b: int| 0 <= a < b < out@.len() implies before(depths@, (#[trigger] out@[a]) as int, (#[trigger] out@[b]) as int) by {
                        if b == out@.len() - 1 {
                            assert(out@[a] == before_push[a]);
                            if a < start.len() {
                                assert(depths@[start[a] as int] < d);
                            }
                        } else {
                            assert(out@[a] == before_push[a] && out@[b] == before_push[b]);
                        }
                    }
                    assert forall|j: int| 0 <= j < i + 1 && takes_part(is_dir@, j, skip_directories) && depths@[j] == d implies out@.contains(j as usize) by {
                        if j == i {
                            assert(out@[out@.len() - 1] == i);
                        } else {
                            let w = choose|w: int| 0 <= w < before_push.len() && before_push[w] == j as usize;
                            assert(out@[w] == before_push[w]);
                        }
                    }
                }
            }
            i = i + 1;
        }
        proof {
            assert forall|k: int| 0 <= k < out@.len() implies (#[trigger] out@[k]) < depths@.len() && depths@[out@[k] as int] < d + 1 by {
                if k < start.len() {
                    assert(out@[k] == start[k]);
                }
            }
            assert forall|j: int| 0 <= j < depths@.len() && takes_part(is_dir@, j, skip_directories) && depths@[j] < d + 1 implies out@.contains(j as usize) by {
                if depths@[j] < d {
                    let w = choose|w: int| 0 <= w < start.len() && start[w] == j as usize;
                    assert(out@[w] == start[w]);
                }
            }
        }
        if d == max {
            proof {
                assert forall|j: int| 0 <= j < depths@.len() && takes_part(is_dir@, j, skip_directories) implies out@.contains(j as usize) by {
                    assert(depths@[j] <= max);
                }
            }
            return out;
        }
        d = d + 1;
    }
}

/// Per-batch tallies of the entries processed.
#[derive(Debug, Clone, Copy, PartialEq, Eq, Structural)]
pub struct BatchTally {
    /// Directory entries.
    pub directories: usize,
    /// Files of size zero.
    pub zero_byte: usize,
}

/// Directories among `is_dir` (as many as there are entries).
pub open spec fn count_dirs(is_dir: Seq<bool>) -> nat
    decreases is_dir.len(),
{
    if is_dir.len() == 0 {
        0
    } else {
        count_dirs(is_dir.drop_last()) + if is_dir.last() {
            1nat
        } else {
            0nat
        }
    }
}

/// Empty files among the entries: not directories, size zero.
pub open spec fn count_zero_byte(is_dir: Seq<bool>, sizes: Seq<u64>) -> nat
    decreases is_dir.len(),
{
    if is_dir.len() == 0 || sizes.len() < is_dir.len() {
        0
    } else {
        let k = is_dir.len() - 1;
        count_zero_byte(is_dir.drop_last(), sizes.take(k)) + if !is_dir[k] && sizes[k] == 0 {
            1nat
        } else {
            0nat
        }
    }
}

/// Counts the directories and the empty files of a batch.
pub fn tally_batch(is_dir: &[bool], sizes: &[u64]) -> (r: BatchTally)
    requires
        is_dir@.len() == sizes@.len(),
    ensures
        r.directories == count_dirs(is_dir@),
        r.zero_byte == count_zero_byte(is_dir@, sizes@),
{
    let mut dirs: usize = 0;
    let mut zero: usize = 0;
    let mut i: usize = 0;
    while i < is_dir.len()
        invariant
            0 <= i <= is_dir@.len(),
            is_dir@.len() == sizes@.len(),
            dirs == count_dirs(is_dir@.take(i as int)),
            zero == count_zero_byte(is_dir@.take(i as int), sizes@.take(i as int)),
            dirs + zero <= i,
        decreases is_dir@.len() - i,
    {
        proof {
            assert(is_dir@.take(i + 1).drop_last() =~= is_dir@.take(i as int));
            assert(sizes@.take(i + 1).take(i as int) =~= sizes@.take(i as int));
            assert(is_dir@.take(i + 1).last() == is_dir@[i as int]);
        }
        if is_dir[i] {
            dirs = dirs + 1;
        } else if sizes[i] == 0 {
            zero = zero + 1;
        }
        i = i + 1;
    }
    proof {
        assert(is_dir@.take(is_dir@.len() as int) =~= is_dir@);
        assert(sizes@.take(sizes@.len() as int) =~= sizes@);
    }
    BatchTally { directories: dirs, zero_byte: zero }
}

/// Whether an entry's parent is looked up: not for a missing parent, nor
/// for an entry that is its own parent (a volume root).
pub fn has_parent_row(fid: u64, parent_fid: u64) -> (r: bool)
    ensures
        r == (parent_fid != NO_PARENT_FID && parent_fid != fid),
{
    parent_fid != NO_PARENT_FID && parent_fid != fid
}

/// The size column: the size, capped at `i64::MAX`.
pub fn size_column(size: u64) -> (r: i64)
    ensures
        size <= i64::MAX ==> r == size,
        size > i64::MAX ==> r == i64::MAX,
{
    if size <= 0x7fff_ffff_ffff_ffff {
        size as i64
    } else {
        0x7fff_ffff_ffff_ffff
    }
}

/// The kind column: "Directory" or "File".
pub fn object_kind(is_dir: bool) -> (r: &'static str)
    ensures
        is_dir ==> r@ == "Directory"@,
        !is_dir ==> r@ == "File"@,
{
    if is_dir {
        "Directory"
    } else {
        "File"
    }
}

/// Whether an entry's MIME type is looked up: files only, when enabled.
pub fn wants_mime(config: &PipelineConfig, is_dir: bool) -> (r: bool)
    ensures
        r == (config.mime_detection && !is_dir),
{
    config.mime_detection && !is_dir
}

/// The counts of a pipeline run over its batches.
#[derive(Debug, Clone, Copy, PartialEq, Eq, Structural)]
pub struct PipelineTotals {
    /// Entries handed to the run.
    pub total: usize,
    /// Files hashed.
    pub hashed: usize,
    /// Ids taken from the inode cache.
    pub cached: usize,
    /// Files that could not be read.
    pub skipped: usize,
    /// Errors reported by hashing.
    pub errors: usize,
    /// Directory entries.
    pub directories: usize,
    /// Empty files.
    pub zero_byte: usize,
}

impl PipelineTotals {
    /// Counts for a run over `total` entries, before any batch.
    pub fn new(total: usize) -> (r: Self)
        ensures
            r == (PipelineTotals { total, hashed: 0, cached: 0, skipped: 0, errors: 0, directories: 0, zero_byte: 0 }),
    {
        PipelineTotals { total, hashed: 0, cached: 0, skipped: 0, errors: 0, directories: 0, zero_byte: 0 }
    }

    /// What the counts account for: every entry is a directory, a cache
    /// hit, a hashed file or a skipped one.
    pub open spec fn accounted(self) -> int {
        self.hashed + self.cached + self.skipped + self.directories
    }

    /// Hash one batch (its file reads given, in the order `files_to_read`
    /// asks for them) and count it: afterwards the counts account for every
    /// entry of the batch once more, so over a run they account for every
    /// entry that took part.
    pub fn hash_batch(&mut self, entries: &[HashInput], reads: &[Result<[u8; 32], String>]) -> (r: BatchHashResult)
        requires
            reads@.len() == read_positions(entries@).len(),
            old(self).hashed + entries@.len() <= usize::MAX,
            old(self).cached + entries@.len() <= usize::MAX,
            old(self).skipped + entries@.len() <= usize::MAX,
            old(self).errors + entries@.len() <= usize::MAX,
            old(self).directories + entries@.len() <= usize::MAX,
            old(self).zero_byte + entries@.len() <= usize::MAX,
        ensures
            outcome_of(r) == batch_outcome(entries@, reads@),
            final(self).accounted() == old(self).accounted() + entries@.len(),
            final(self).total == old(self).total,
            final(self).hashed == old(self).hashed + r.hashed,
            final(self).cached == old(self).cached + r.cache_hits,
            final(self).skipped == old(self).skipped + r.skipped,
            final(self).errors == old(self).errors + r.skipped,
            final(self).directories == old(self).directories + dirs_in(entries@),
            final(self).zero_byte == old(self).zero_byte + empty_files_in(entries@),
    {
        let mut dirs: usize = 0;
        let mut zero: usize = 0;
        let mut i: usize = 0;
        while i < entries.len()
            invariant
                0 <= i <= entries@.len(),
                dirs == dirs_in(entries@.take(i as int)),
                zero == empty_files_in(entries@.take(i as int)),
                dirs + zero <= i,
            decreases entries@.len() - i,
        {
            proof {
                assert(entries@.take(i + 1).drop_last() =~= entries@.take(i as int));
                assert(entries@.take(i + 1).last() == entries@[i as int]);
            }
            if entries[i].is_dir {
                dirs = dirs + 1;
            } else if entries[i].size == 0 {
                zero = zero + 1;
            }
            i = i + 1;
        }
        proof {
            assert(entries@.take(entries@.len() as int) =~= entries@);
        }
        let r = assemble_batch(entries, reads);
        proof {
            lemma_batch_accounts(entries@, reads@);
        }
        self.add_batch(BatchTally { directories: dirs, zero_byte: zero }, &r);
        r
    }

    /// Add one batch: its tallies and what hashing it reported.
    pub fn add_batch(&mut self, tally: BatchTally, hashed: &BatchHashResult)
        requires
            old(self).hashed + hashed.hashed <= usize::MAX,
            old(self).cached + hashed.cache_hits <= usize::MAX,
            old(self).skipped + hashed.skipped <= usize::MAX,
            old(self).errors + hashed.errors@.len() <= usize::MAX,
            old(self).directories + tally.directories <= usize::MAX,
            old(self).zero_byte + tally.zero_byte <= usize::MAX,
        ensures
            *final(self) == (PipelineTotals {
                total: old(self).total,
                hashed: (old(self).hashed + hashed.hashed) as usize,
                cached: (old(self).cached + hashed.cache_hits) as usize,
                skipped: (old(self).skipped + hashed.skipped) as usize,
                errors: (old(self).errors + hashed.errors@.len()) as usize,
                directories: (old(self).directories + tally.directories) as usize,
                zero_byte: (old(self).zero_byte + tally.zero_byte) as usize,
            }),
    {
        self.hashed = self.hashed + hashed.hashed;
        self.cached = self.cached + hashed.cache_hits;
        self.skipped = self.skipped + hashed.skipped;
        self.errors = self.errors + hashed.errors.len();
        self.directories = self.directories + tally.directories;
        self.zero_byte = self.zero_byte + tally.zero_byte;
    }
}

} // verus!
