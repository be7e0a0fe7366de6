//! Hashing a batch of entries, and the background upgrade of deferred ids.
//!
//! A directory gets a synthetic id derived from its path; an entry the inode
//! cache knows keeps the cached id; an empty file gets the digest of no
//! bytes; every other file is read from disk. The reads are made by the
//! caller, between planning the batch and assembling its result. Object ids
//! are the 32 bytes of a BLAKE3 digest.

use vstd::prelude::*;
use crate::hashing::{blake3_digest, blake3_hash};
use crate::pipeline::BackgroundHashResult;

verus! {

/// One entry of a hashing batch, as far as hashing reads it.
pub struct HashInput {
    /// Whether the entry is a directory.
    pub is_dir: bool,
    /// Logical size in bytes.
    pub size: u64,
    /// The entry's full path, as the OS encodes it.
    pub path_bytes: Vec<u8>,
    /// The id the inode cache holds for the entry's key, where it holds a
    /// valid one.
    pub cached: Option<[u8; 32]>,
}

/// Whether an entry's content has to be read from disk.
pub open spec fn needs_read(e: HashInput) -> bool {
    !e.is_dir && e.cached is None && e.size > 0
}

/// The positions of the entries that have to be read, in order.
pub open spec fn read_positions(s: Seq<HashInput>) -> Seq<usize>
    decreases s.len(),
{
    if s.len() == 0 {
        seq![]
    } else {
        let prev = read_positions(s.drop_last());
        if needs_read(s.last()) {
            prev.push((s.len() - 1) as usize)
        } else {
            prev
        }
    }
}

/// The bytes `dir:`, which prefix a directory's path in its synthetic id.
pub open spec fn dir_prefix() -> Seq<u8> {
    seq![0x64u8, 0x69u8, 0x72u8, 0x3au8]
}

/// The synthetic id of a directory: the digest of `dir:` and its path.
pub open spec fn dir_digest(path: Seq<u8>) -> Seq<u8> {
    blake3_digest(dir_prefix() + path)
}

/// One hashed entry.
pub struct HashResult {
    /// Position of the entry in the batch.
    pub index: usize,
    /// Its object id.
    pub object_id: [u8; 32],
    /// Whether the id came from the inode cache.
    pub cached: bool,
    /// Whether the id was derived from the path (a directory) rather than
    /// from the content.
    pub synthetic: bool,
}

/// The result of hashing a batch.
pub struct BatchHashResult {
    /// The entries that got an id, in batch order.
    pub results: Vec<HashResult>,
    /// Ids taken from the inode cache.
    pub cache_hits: usize,
    /// Files hashed (read from disk, or empty).
    pub hashed: usize,
    /// Files that could not be read.
    pub skipped: usize,
    /// Position and message of each file that could not be read.
    pub errors: Vec<(usize, String)>,
}

/// What a batch comes to, over mathematical values.
pub struct BatchOutcome {
    pub results: Seq<(usize, Seq<u8>, bool, bool)>,
    pub cache_hits: nat,
    pub hashed: nat,
    pub skipped: nat,
    pub errors: Seq<(usize, Seq<char>)>,
}

/// A batch result as a `BatchOutcome`.
pub open spec fn outcome_of(r: BatchHashResult) -> BatchOutcome {
    BatchOutcome {
        results: r.results@.map_values(|h: HashResult| (h.index, h.object_id@, h.cached, h.synthetic)),
        cache_hits: r.cache_hits as nat,
        hashed: r.hashed as nat,
        skipped: r.skipped as nat,
        errors: r.errors@.map_values(|x: (usize, String)| (x.0, x.1@)),
    }
}

/// The outcome of the batch `s`, where `reads` holds the result of reading
/// each entry of `read_positions(s)`, in that order (the digest of the
/// content, or an error message).
pub open spec fn batch_outcome(s: Seq<HashInput>, reads: Seq<Result<[u8; 32], String>>) -> BatchOutcome
    decreases s.len(),
{
    if s.len() == 0 {
        BatchOutcome { results: seq![], cache_hits: 0, hashed: 0, skipped: 0, errors: seq![] }
    } else {
        let b = batch_outcome(s.drop_last(), reads);
        let i = (s.len() - 1) as usize;
        let e = s.last();
        if e.is_dir {
            BatchOutcome { results: b.results.push((i, dir_digest(e.path_bytes@), false, true)), ..b }
        } else if e.cached is Some {
            BatchOutcome { results: b.results.push((i, e.cached->0@, true, false)), cache_hits: b.cache_hits + 1, ..b }
        } else if e.size == 0 {
            BatchOutcome { results: b.results.push((i, blake3_digest(seq![]), false, false)), hashed: b.hashed + 1, ..b }
        } else {
            match reads[read_positions(s.drop_last()).len() as int] {
                Ok(h) => BatchOutcome { results: b.results.push((i, h@, false, false)), hashed: b.hashed + 1, ..b },
                Err(m) => BatchOutcome { skipped: b.skipped + 1, errors: b.errors.push((i, m@)), ..b },
            }
        }
    }
}

/// The entries of a batch whose content has to be read from disk.
pub fn files_to_read(entries: &[HashInput]) -> (r: Vec<usize>)
    ensures
        r@ == read_positions(entries@),
{
    let mut out: Vec<usize> = Vec::new();
    let mut i: usize = 0;
    while i < entries.len()
        invariant
            0 <= i <= entries@.len(),
            out@ == read_positions(entries@.take(i as int)),
        decreases entries@.len() - i,
    {
        proof {
            let t = entries@.take(i + 1);
            assert(t.drop_last() =~= entries@.take(i as int));
            assert(t.last() == entries@[i as int]);
        }
        let e = &entries[i];
        if !e.is_dir && e.cached.is_none() && e.size > 0 {
            out.push(i);
        }
        i = i + 1;
    }
    proof {
        assert(entries@.take(entries@.len() as int) =~= entries@);
    }
    out
}

/// The synthetic id of a directory.
pub fn directory_id(path_bytes: &[u8]) -> (r: [u8; 32])
    ensures
        r@ == dir_digest(path_bytes@),
{
    let mut v: Vec<u8> = Vec::new();
    v.push(0x64u8);
    v.push(0x69u8);
    v.push(0x72u8);
    v.push(0x3au8);
    let mut i: usize = 0;
    while i < path_bytes.len()
        invariant
            0 <= i <= path_bytes@.len(),
            v@ == dir_prefix() + path_bytes@.take(i as int),
        decreases path_bytes@.len() - i,
    {
        v.push(path_bytes[i]);
        proof {
            assert(path_bytes@.take(i + 1) =~= path_bytes@.take(i as int).push(path_bytes@[i as int]));
        }
        i = i + 1;
    }
    proof {
        assert(path_bytes@.take(path_bytes@.len() as int) =~= path_bytes@);
    }
    blake3_hash(v.as_slice())
}

/// The id of an empty file: the digest of no bytes.
pub fn empty_file_id() -> (r: [u8; 32])
    ensures
        r@ == blake3_digest(seq![]),
{
    let v: Vec<u8> = Vec::new();
    blake3_hash(v.as_slice())
}

/// Assemble a batch's result from its entries and the results of the reads
/// that `files_to_read` asked for, in that order.
pub fn assemble_batch(entries: &[HashInput], reads: &[Result<[u8; 32], String>]) -> (r: BatchHashResult)
    requires
        reads@.len() == read_positions(entries@).len(),
    ensures
        outcome_of(r) == batch_outcome(entries@, reads@),
        forall|k: int| 0 <= k < r.results@.len() ==> (#[trigger] r.results@[k]).index < entries@.len(),
{
    let mut results: Vec<HashResult> = Vec::new();
    let mut cache_hits: usize = 0;
    let mut hashed: usize = 0;
    let mut skipped: usize = 0;
    let mut errors: Vec<(usize, String)> = Vec::new();
    let mut k: usize = 0;
    let mut i: usize = 0;
    proof {
        let o = outcome_of(BatchHashResult { results, cache_hits, hashed, skipped, errors });
        assert(o.results =~= seq![]);
        assert(o.errors =~= seq![]);
    }
    while i < entries.len()
        invariant
            0 <= i <= entries@.len(),
            reads@.len() == read_positions(entries@).len(),
            k == read_positions(entries@.take(i as int)).len(),
            k <= i,
            cache_hits <= i && hashed <= i && skipped <= i,
            forall|j: int| 0 <= j < results@.len() ==> (#[trigger] results@[j]).index < i,
            outcome_of(BatchHashResult { results, cache_hits, hashed, skipped, errors }) == batch_outcome(
                entries@.take(i as int),
                reads@,
            ),
        decreases entries@.len() - i,
    {
        proof {
            let t = entries@.take(i + 1);
            assert(t.drop_last() =~= entries@.take(i as int));
            assert(t.last() == entries@[i as int]);
            lemma_read_positions_mono(entries@, i + 1, entries@.len() as int);
            assert(entries@.take(entries@.len() as int) =~= entries@);
        }
        let ghost before = outcome_of(BatchHashResult { results, cache_hits, hashed, skipped, errors });
        let e = &entries[i];
        if e.is_dir {
            let id = directory_id(e.path_bytes.as_slice());
            results.push(HashResult { index: i, object_id: id, cached: false, synthetic: true });
        } else if let Some(h) = e.cached {
            results.push(HashResult { index: i, object_id: h, cached: true, synthetic: false });
            cache_hits = cache_hits + 1;
        } else if e.size == 0 {
            let id = empty_file_id();
            results.push(HashResult { index: i, object_id: id, cached: false, synthetic: false });
            hashed = hashed + 1;
        } else {
            match &reads[k] {
                Ok(h) => {
                    results.push(HashResult { index: i, object_id: *h, cached: false, synthetic: false });
                    hashed = hashed + 1;
                },
                Err(m) => {
                    errors.push((i, m.clone()));
                    skipped = skipped + 1;
                },
            }
            k = k + 1;
        }
        proof {
            let after = outcome_of(BatchHashResult { results, cache_hits, hashed, skipped, errors });
            assert(after.results =~= batch_outcome(entries@.take(i + 1), reads@).results);
            assert(after.errors =~= batch_outcome(entries@.take(i + 1), reads@).errors);
        }
        i = i + 1;
    }
    proof {
        assert(entries@.take(entries@.len() as int) =~= entries@);
    }
    BatchHashResult { results, cache_hits, hashed, skipped, errors }
}

/// A longer prefix asks for at least as many reads.
proof fn lemma_read_positions_mono(s: Seq<HashInput>, i: int, j: int)
    requires
        0 <= i <= j <= s.len(),
    ensures
        read_positions(s.take(i)).len() <= read_positions(s.take(j)).len(),
    decreases j - i,
{
    if i < j {
        let t = s.take(j);
        assert(t.drop_last() =~= s.take(j - 1));
        lemma_read_positions_mono(s, i, j - 1);
    }
}

/// The directories among the entries.
pub open spec fn dirs_in(s: Seq<HashInput>) -> nat
    decreases s.len(),
{
    if s.len() == 0 {
        0
    } else {
        dirs_in(s.drop_last()) + if s.last().is_dir {
            1nat
        } else {
            0nat
        }
    }
}

/// The empty files among the entries.
pub open spec fn empty_files_in(s: Seq<HashInput>) -> nat
    decreases s.len(),
{
    if s.len() == 0 {
        0
    } else {
        empty_files_in(s.drop_last()) + if !s.last().is_dir && s.last().size == 0 {
            1nat
        } else {
            0nat
        }
    }
}

/// Every entry of a batch is counted once: as a directory, a cache hit, a
/// hashed file or a skipped one; and each skipped file has its error.
pub proof fn lemma_batch_accounts(s: Seq<HashInput>, reads: Seq<Result<[u8; 32], String>>)
    ensures
        batch_outcome(s, reads).hashed + batch_outcome(s, reads).cache_hits + batch_outcome(s, reads).skipped
            + dirs_in(s) == s.len(),
        batch_outcome(s, reads).errors.len() == batch_outcome(s, reads).skipped,
    decreases s.len(),
{
    if s.len() > 0 {
        lemma_batch_accounts(s.drop_last(), reads);
    }
}

/// The ids a batch computed from content (not from the cache, not
/// synthetic), in order: what goes into the inode cache afterwards.
pub open spec fn fresh_ids(results: Seq<(usize, Seq<u8>, bool, bool)>) -> Seq<(usize, Seq<u8>)>
    decreases results.len(),
{
    if results.len() == 0 {
        seq![]
    } else {
        let prev = fresh_ids(results.drop_last());
        let r = results.last();
        if !r.2 && !r.3 {
            prev.push((r.0, r.1))
        } else {
            prev
        }
    }
}

/// The new inode-cache entries of a batch: position and id of each entry
/// whose id was computed from its content.
pub fn cache_inserts(r: &BatchHashResult) -> (out: Vec<(usize, [u8; 32])>)
    ensures
        out@.map_values(|x: (usize, [u8; 32])| (x.0, x.1@)) == fresh_ids(outcome_of(*r).results),
{
    let mut out: Vec<(usize, [u8; 32])> = Vec::new();
    let mut k: usize = 0;
    let ghost rs = outcome_of(*r).results;
    proof {
        assert(out@.map_values(|x: (usize, [u8; 32])| (x.0, x.1@)) =~= Seq::<(usize, Seq<u8>)>::empty());
    }
    while k < r.results.len()
        invariant
            0 <= k <= r.results@.len(),
            rs == outcome_of(*r).results,
            rs.len() == r.results@.len(),
            out@.map_values(|x: (usize, [u8; 32])| (x.0, x.1@)) == fresh_ids(rs.take(k as int)),
        decreases r.results@.len() - k,
    {
        proof {
            assert(rs.take(k + 1).drop_last() =~= rs.take(k as int));
            assert(rs.take(k + 1).last() == rs[k as int]);
        }
        let h = &r.results[k];
        if !h.cached && !h.synthetic {
            let ghost before = out@;
            out.push((h.index, h.object_id));
            proof {
                assert(out@.map_values(|x: (usize, [u8; 32])| (x.0, x.1@)) =~= before.map_values(
                    |x: (usize, [u8; 32])| (x.0, x.1@),
                ).push((h.index, h.object_id@)));
            }
        }
        k = k + 1;
    }
    proof {
        assert(rs.take(rs.len() as int) =~= rs);
    }
    out
}

/// The inode cache at work: a file read and hashed once (a miss) is, once its
/// id is in the cache, a hit on the next batch, with the same id and no read.
pub proof fn lemma_miss_then_hit(e: HashInput, h: [u8; 32])
    requires
        needs_read(e),
    ensures
        read_positions(seq![e]) == seq![0usize],
        batch_outcome(seq![e], seq![Ok::<[u8; 32], String>(h)]).hashed == 1,
        batch_outcome(seq![e], seq![Ok::<[u8; 32], String>(h)]).cache_hits == 0,
        batch_outcome(seq![e], seq![Ok::<[u8; 32], String>(h)]).results == seq![(0usize, h@, false, false)],
        fresh_ids(batch_outcome(seq![e], seq![Ok::<[u8; 32], String>(h)]).results) == seq![(0usize, h@)],
        read_positions(seq![HashInput { cached: Some(h), ..e }]).len() == 0,
        batch_outcome(seq![HashInput { cached: Some(h), ..e }], seq![]).cache_hits == 1,
        batch_outcome(seq![HashInput { cached: Some(h), ..e }], seq![]).hashed == 0,
        batch_outcome(seq![HashInput { cached: Some(h), ..e }], seq![]).results == seq![(0usize, h@, true, false)],
{
    let s1 = seq![e];
    let e2 = HashInput { cached: Some(h), ..e };
    let s2 = seq![e2];
    assert(s1.drop_last() =~= Seq::<HashInput>::empty());
    assert(s2.drop_last() =~= Seq::<HashInput>::empty());
    assert(s1.last() == e);
    assert(s2.last() == e2);
    assert(((s1.len() - 1) as usize) == 0usize);
    assert(read_positions(s1.drop_last()) =~= Seq::<usize>::empty());
    assert(read_positions(s1) =~= seq![0usize]);
    assert(batch_outcome(s1.drop_last(), seq![Ok::<[u8; 32], String>(h)]).results =~= Seq::<(usize, Seq<u8>, bool, bool)>::empty());
    assert(batch_outcome(s2.drop_last(), seq![]).results =~= Seq::<(usize, Seq<u8>, bool, bool)>::empty());
    let b1 = batch_outcome(s1, seq![Ok::<[u8; 32], String>(h)]);
    assert(b1.results =~= seq![(0usize, h@, false, false)]);
    assert(b1.results.drop_last() =~= Seq::<(usize, Seq<u8>, bool, bool)>::empty());
    assert(fresh_ids(b1.results.drop_last()) =~= Seq::<(usize, Seq<u8>)>::empty());
    assert(b1.results.last() == (0usize, h@, false, false));
    assert(fresh_ids(b1.results) =~= seq![(0usize, h@)]);
    assert(batch_outcome(s2, seq![]).results =~= seq![(0usize, h@, true, false)]);
}

/// An inode-cache key within one volume: fid, modification time (seconds)
/// and size, as the background hasher's `cache_key_parts` gives them.
pub type InodeKey = (u64, i64, u64);

/// What the inode cache answers for key `k`.
pub open spec fn cache_answer(cache: Map<InodeKey, [u8; 32]>, k: InodeKey) -> Option<[u8; 32]> {
    if cache.contains_key(k) {
        Some(cache[k])
    } else {
        None
    }
}

/// The cache after recording the fresh ids of a batch, each under the key of
/// its entry (`keys[i]` for entry `i`).
pub open spec fn recorded(cache: Map<InodeKey, [u8; 32]>, keys: Seq<InodeKey>, fresh: Seq<(usize, [u8; 32])>) -> Map<InodeKey, [u8; 32]>
    decreases fresh.len(),
{
    if fresh.len() == 0 {
        cache
    } else {
        recorded(cache, keys, fresh.drop_last()).insert(keys[fresh.last().0 as int], fresh.last().1)
    }
}

/// The inode cache across two calls: a file the cache does not know is read
/// and hashed (a miss); once its fresh id is recorded under its key (fid,
/// modification time, size), the next batch finds it (a hit) with the same
/// id and no read; an entry whose size changed has another key, and unless
/// the cache already held that key it is a miss again.
pub proof fn lemma_cache_across_calls(
    e: HashInput,
    key: InodeKey,
    cache: Map<InodeKey, [u8; 32]>,
    h: [u8; 32],
    new_size: u64,
)
    requires
        !e.is_dir,
        e.size > 0,
        key.2 == e.size,
        !cache.contains_key(key),
        e.cached == cache_answer(cache, key),
        new_size != e.size,
        new_size > 0,
        !cache.contains_key((key.0, key.1, new_size)),
    ensures
        ({
            let first = batch_outcome(seq![e], seq![Ok::<[u8; 32], String>(h)]);
            let cache2 = recorded(cache, seq![key], seq![(0usize, h)]);
            let again = HashInput { cached: cache_answer(cache2, key), ..e };
            let grown = HashInput { size: new_size, cached: cache_answer(cache2, (key.0, key.1, new_size)), ..e };
            &&& first.hashed == 1 && first.cache_hits == 0
            &&& fresh_ids(first.results) == seq![(0usize, h@)]
            &&& read_positions(seq![again]).len() == 0
            &&& batch_outcome(seq![again], seq![]).cache_hits == 1
            &&& batch_outcome(seq![again], seq![]).hashed == 0
            &&& batch_outcome(seq![again], seq![]).results[0].1 == first.results[0].1
            &&& read_positions(seq![grown]) == seq![0usize]
            &&& batch_outcome(seq![grown], seq![Ok::<[u8; 32], String>(h)]).hashed == 1
            &&& batch_outcome(seq![grown], seq![Ok::<[u8; 32], String>(h)]).cache_hits == 0
        }),
{
    let cache2 = recorded(cache, seq![key], seq![(0usize, h)]);
    let fr = seq![(0usize, h)];
    assert(fr.drop_last() =~= Seq::<(usize, [u8; 32])>::empty());
    assert(fr.last() == (0usize, h));
    assert(seq![key][0] == key);
    assert(recorded(cache, seq![key], Seq::<(usize, [u8; 32])>::empty()) == cache);
    assert(cache2 == cache.insert(key, h));
    assert(cache_answer(cache2, key) == Some(h));
    assert(key != (key.0, key.1, new_size));
    assert(cache_answer(cache2, (key.0, key.1, new_size)) is None);
    lemma_miss_then_hit(e, h);
    let grown = HashInput { size: new_size, cached: cache_answer(cache2, (key.0, key.1, new_size)), ..e };
    lemma_miss_then_hit(grown, h);
}

// ───────────────────────── background upgrade ─────────────────────────

/// What became of one deferred object in the background hasher.
#[derive(Clone, Copy)]
pub enum RowOutcome {
    /// Its file could not be read.
    Unreadable,
    /// Its content id equals its deferred id.
    Unchanged,
    /// The store now holds it under its content id.
    Upgraded,
    /// The store failed to upgrade it.
    UpgradeFailed,
}

/// The counts of one batch of the background hasher.
pub struct UpgradeCounts {
    pub upgraded: u64,
    pub errors: u64,
}

/// Whether the background hasher goes on: it checks for cancellation
/// before fetching each batch and before hashing each row of a batch, and
/// stops once cancelled.
pub fn not_cancelled(cancelled: bool) -> (r: bool)
    ensures
        r == !cancelled,
{
    !cancelled
}

/// Whether a fetched batch is worked on: not when fetching failed (`None`,
/// the hasher stops) nor when nothing deferred is left (it is done).
pub fn batch_to_hash(fetched: Option<usize>) -> (r: bool)
    ensures
        r == (match fetched {
            Some(n) => n > 0,
            None => false,
        }),
{
    match fetched {
        Some(n) => n > 0,
        None => false,
    }
}

/// Count one row: an unreadable file or a failed upgrade is an error of the
/// batch, an upgrade counts for the batch, an unchanged id counts in the
/// totals at once.
pub fn count_row(batch: &mut UpgradeCounts, totals: &mut BackgroundHashResult, outcome: RowOutcome)
    requires
        old(batch).upgraded < u64::MAX,
        old(batch).errors < u64::MAX,
        old(totals).unchanged < u64::MAX,
    ensures
        final(totals).upgraded == old(totals).upgraded,
        final(totals).errors == old(totals).errors,
        match outcome {
            RowOutcome::Unreadable | RowOutcome::UpgradeFailed => final(batch).errors == old(batch).errors + 1
                && final(batch).upgraded == old(batch).upgraded && final(totals).unchanged == old(totals).unchanged,
            RowOutcome::Upgraded => final(batch).upgraded == old(batch).upgraded + 1
                && final(batch).errors == old(batch).errors && final(totals).unchanged == old(totals).unchanged,
            RowOutcome::Unchanged => final(totals).unchanged == old(totals).unchanged + 1
                && final(batch).upgraded == old(batch).upgraded && final(batch).errors == old(batch).errors,
        },
{
    match outcome {
        RowOutcome::Unreadable | RowOutcome::UpgradeFailed => {
            batch.errors = batch.errors + 1;
        },
        RowOutcome::Upgraded => {
            batch.upgraded = batch.upgraded + 1;
        },
        RowOutcome::Unchanged => {
            totals.unchanged = totals.unchanged + 1;
        },
    }
}

/// Close a batch: its counts join the totals; the hasher goes on only if the
/// batch upgraded something (so that files that can never be hashed do not
/// keep it running).
pub fn close_batch(totals: &mut BackgroundHashResult, batch: &UpgradeCounts) -> (r: bool)
    requires
        old(totals).upgraded + batch.upgraded <= u64::MAX,
        old(totals).errors + batch.errors <= u64::MAX,
    ensures
        final(totals).upgraded == old(totals).upgraded + batch.upgraded,
        final(totals).errors == old(totals).errors + batch.errors,
        final(totals).unchanged == old(totals).unchanged,
        r == (batch.upgraded > 0),
{
    totals.upgraded = totals.upgraded + batch.upgraded;
    totals.errors = totals.errors + batch.errors;
    batch.upgraded > 0
}

/// How many of `rows` were upgraded, failed (unreadable or not upgraded),
/// and kept their id.
pub open spec fn row_tally(rows: Seq<RowOutcome>) -> (nat, nat, nat)
    decreases rows.len(),
{
    if rows.len() == 0 {
        (0, 0, 0)
    } else {
        let t = row_tally(rows.drop_last());
        match rows.last() {
            RowOutcome::Upgraded => ((t.0 + 1) as nat, t.1, t.2),
            RowOutcome::Unreadable | RowOutcome::UpgradeFailed => (t.0, (t.1 + 1) as nat, t.2),
            RowOutcome::Unchanged => (t.0, t.1, (t.2 + 1) as nat),
        }
    }
}

/// Each row falls under exactly one count.
pub proof fn lemma_row_tally_total(rows: Seq<RowOutcome>)
    ensures
        row_tally(rows).0 + row_tally(rows).1 + row_tally(rows).2 == rows.len(),
    decreases rows.len(),
{
    if rows.len() > 0 {
        lemma_row_tally_total(rows.drop_last());
    }
}

/// One batch of the background hasher, over the rows it got to before any
/// cancellation: each row is counted (`count_row`) and the batch is closed
/// (`close_batch`). The totals grow by the batch's tally, so that every row
/// counts exactly once; returns whether the hasher goes on.
pub fn settle_upgrade_batch(totals: &mut BackgroundHashResult, rows: &[RowOutcome]) -> (r: bool)
    requires
        old(totals).upgraded + rows@.len() <= u64::MAX,
        old(totals).errors + rows@.len() <= u64::MAX,
        old(totals).unchanged + rows@.len() <= u64::MAX,
    ensures
        final(totals).upgraded == old(totals).upgraded + row_tally(rows@).0,
        final(totals).errors == old(totals).errors + row_tally(rows@).1,
        final(totals).unchanged == old(totals).unchanged + row_tally(rows@).2,
        final(totals).upgraded + final(totals).errors + final(totals).unchanged
            == old(totals).upgraded + old(totals).errors + old(totals).unchanged + rows@.len(),
        r == (row_tally(rows@).0 > 0),
{
    let mut batch = UpgradeCounts { upgraded: 0, errors: 0 };
    let ghost start_unchanged = totals.unchanged;
    let mut i: usize = 0;
    while i < rows.len()
        invariant
            0 <= i <= rows@.len(),
            batch.upgraded == row_tally(rows@.take(i as int)).0,
            batch.errors == row_tally(rows@.take(i as int)).1,
            totals.unchanged == start_unchanged + row_tally(rows@.take(i as int)).2,
            totals.upgraded == old(totals).upgraded,
            totals.errors == old(totals).errors,
            start_unchanged == old(totals).unchanged,
            old(totals).upgraded + rows@.len() <= u64::MAX,
            old(totals).errors + rows@.len() <= u64::MAX,
            old(totals).unchanged + rows@.len() <= u64::MAX,
        decreases rows@.len() - i,
    {
        proof {
            lemma_row_tally_total(rows@.take(i as int));
            assert(rows@.take(i + 1).drop_last() =~= rows@.take(i as int));
        }
        count_row(&mut batch, totals, rows[i]);
        i = i + 1;
    }
    proof {
        assert(rows@.take(rows@.len() as int) =~= rows@);
        lemma_row_tally_total(rows@);
    }
    close_batch(totals, &batch)
}

/// The inode-cache key parts of an upgraded row: its fid, which must be
/// known and not negative, its modification time (0 where it could not be
/// read) and its size (0 where negative). `None`: no cache entry.
pub fn cache_key_parts(fid: Option<i64>, mtime: Option<i64>, size_bytes: i64) -> (r: Option<(u64, i64, u64)>)
    ensures
        match fid {
            Some(f) => f >= 0 ==> r == Some((f as u64, match mtime { Some(t) => t, None => 0i64 }, if size_bytes >= 0 { size_bytes as u64 } else { 0u64 })),
            None => r is None,
        },
        (fid matches Some(f) && f < 0) ==> r is None,
{
    match fid {
        Some(f) => {
            if f < 0 {
                return None;
            }
            let t: i64 = match mtime {
                Some(t) => t,
                None => 0,
            };
            let size: u64 = if size_bytes >= 0 { size_bytes as u64 } else { 0 };
            Some((f as u64, t, size))
        },
        None => None,
    }
}

} // verus!
