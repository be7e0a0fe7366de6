//! The decisions of the content scanning pipeline.
//!
//! Exact duplicates are found in three narrowing steps: files are bucketed
//! by size (a unique size cannot be duplicated), each bucket is split by a
//! partial hash, and each partial-hash group by a full hash. Files sharing a
//! full hash are paired. The hashing itself reads files and is done by the
//! caller; these functions decide what to hash next and what matched.

use vstd::prelude::*;
use std::collections::HashMap;
use crate::dedup::file_entry::FileEntry;
use crate::dedup::grouping::{DupeGroup, MatchKind};

verus! {

broadcast use {vstd::std_specs::hash::group_hash_axioms, vstd::seq_lib::group_seq_properties};

/// The positions of the files of size `s`, in order.
pub open spec fn size_indices(files: Seq<FileEntry>, s: u64) -> Seq<usize>
    decreases files.len(),
{
    if files.len() == 0 {
        seq![]
    } else if files.last().size == s {
        size_indices(files.drop_last(), s).push((files.len() - 1) as usize)
    } else {
        size_indices(files.drop_last(), s)
    }
}

/// The bucket of size `s`: each position with a reference to its file.
pub open spec fn is_bucket(b: Seq<(usize, &FileEntry)>, files: Seq<FileEntry>, s: u64) -> bool {
    &&& b.len() == size_indices(files, s).len()
    &&& forall|k: int| 0 <= k < b.len() ==> (#[trigger] b[k]).0 == size_indices(files, s)[k] && *b[k].1 == files[b[k].0 as int]
}

/// Positions listed by `size_indices` hold files of that size, in
/// increasing order.
proof fn lemma_size_indices(files: Seq<FileEntry>, s: u64)
    requires
        files.len() <= usize::MAX,
    ensures
        forall|k: int| 0 <= k < size_indices(files, s).len() ==> {
            let i = #[trigger] size_indices(files, s)[k];
            &&& i < files.len()
            &&& files[i as int].size == s
        },
        forall|a: int, b: int| 0 <= a < b < size_indices(files, s).len() ==> (#[trigger] size_indices(files, s)[a]) < (#[trigger] size_indices(files, s)[b]),
    decreases files.len(),
{
    if files.len() > 0 {
        lemma_size_indices(files.drop_last(), s);
        let prev = size_indices(files.drop_last(), s);
        assert forall|k: int| 0 <= k < prev.len() implies (#[trigger] prev[k]) < files.len() - 1 && files[prev[k] as int].size == s by {
            assert(files.drop_last()[prev[k] as int] == files[prev[k] as int]);
        }
    }
}

/// Group files by size, returning only buckets with 2+ files.
///
/// Files smaller than `min_size` are left out; files with unique sizes
/// cannot be content duplicates.
pub fn group_by_size<'a>(files: &'a [FileEntry], min_size: u64) -> (r: HashMap<u64, Vec<(usize, &'a FileEntry)>>)
    ensures
        forall|s: u64| r@.contains_key(s) <==> (s >= min_size && size_indices(files@, s).len() >= 2),
        forall|s: u64| #[trigger] r@.contains_key(s) ==> is_bucket(r@[s]@, files@, s),
{
    // How many files of each size there are.
    let mut counts: HashMap<u64, usize> = HashMap::new();
    let mut i: usize = 0;
    while i < files.len()
        invariant
            0 <= i <= files@.len(),
            forall|s: u64| counts@.contains_key(s) <==> size_indices(files@.take(i as int), s).len() >= 1,
            forall|s: u64| #[trigger] counts@.contains_key(s) ==> counts@[s] == size_indices(files@.take(i as int), s).len(),
        decreases files@.len() - i,
    {
        let s = files[i].size;
        proof {
            assert(files@.take(i + 1).drop_last() =~= files@.take(i as int));
            assert(files@.take(i + 1).last() == files@[i as int]);
            lemma_size_indices(files@.take(i as int), s);
        }
        let c: usize = match counts.get(&s) {
            Some(c) => *c,
            None => 0,
        };
        proof {
            assert(c == size_indices(files@.take(i as int), s).len());
            assert(c <= i) by {
                lemma_count_bound(files@.take(i as int), s);
            }
        }
        counts.insert(s, c + 1);
        i = i + 1;
    }
    proof {
        assert(files@.take(files@.len() as int) =~= files@);
    }
    let mut buckets: HashMap<u64, Vec<(usize, &'a FileEntry)>> = HashMap::new();
    let mut j: usize = 0;
    while j < files.len()
        invariant
            0 <= j <= files@.len(),
            forall|s: u64| counts@.contains_key(s) <==> size_indices(files@, s).len() >= 1,
            forall|s: u64| #[trigger] counts@.contains_key(s) ==> counts@[s] == size_indices(files@, s).len(),
            forall|s: u64| buckets@.contains_key(s) <==> (s >= min_size && size_indices(files@, s).len() >= 2 && size_indices(files@.take(j as int), s).len() >= 1),
            forall|s: u64| #[trigger] buckets@.contains_key(s) ==> is_bucket(buckets@[s]@, files@.take(j as int), s),
        decreases files@.len() - j,
    {
        let f = &files[j];
        let s = f.size;
        let ghost pre = files@.take(j as int);
        let ghost post = files@.take(j + 1);
        proof {
            assert(post.drop_last() =~= pre);
            assert(post.last() == files@[j as int]);
            assert forall|t: u64| t != s implies size_indices(post, t) == size_indices(pre, t) by {}
            assert(size_indices(post, s) == size_indices(pre, s).push(j));
            lemma_size_indices(files@, s);
            lemma_prefix_count(files@, j as int, s);
        }
        if s >= min_size {
            let many = match counts.get(&s) {
                Some(c) => *c >= 2,
                None => false,
            };
            if many {
                let mut b: Vec<(usize, &'a FileEntry)> = match buckets.remove(&s) {
                    Some(b) => b,
                    None => Vec::new(),
                };
                proof {
                    if size_indices(pre, s).len() == 0 {
                        assert(b@ =~= Seq::<(usize, &FileEntry)>::empty());
                    }
                }
                let ghost bb = b@;
                b.push((j, f));
                proof {
                    assert forall|k: int| 0 <= k < b@.len() implies (#[trigger] b@[k]).0 == size_indices(post, s)[k] && *b@[k].1 == post[b@[k].0 as int] by {
                        if k < bb.len() {
                            assert(b@[k] == bb[k]);
                            lemma_size_indices(pre, s);
                            assert(bb[k].0 < pre.len());
                            assert(post[bb[k].0 as int] == pre[bb[k].0 as int]);
                        }
                    }
                }
                buckets.insert(s, b);
            }
        }
        proof {
            assert forall|t: u64| #[trigger] buckets@.contains_key(t) implies is_bucket(buckets@[t]@, post, t) by {
                if t != s {
                    let bt = buckets@[t]@;
                    assert forall|k: int| 0 <= k < bt.len() implies (#[trigger] bt[k]).0 == size_indices(post, t)[k] && *bt[k].1 == post[bt[k].0 as int] by {
                        lemma_size_indices(pre, t);
                        assert(bt[k].0 < pre.len());
                        assert(post[bt[k].0 as int] == pre[bt[k].0 as int]);
                    }
                }
            }
        }
        j = j + 1;
    }
    proof {
        assert(files@.take(files@.len() as int) =~= files@);
        assert forall|s: u64| s >= min_size && size_indices(files@, s).len() >= 2 implies buckets@.contains_key(s) by {
            assert(size_indices(files@.take(files@.len() as int), s).len() >= 1);
        }
    }
    buckets
}

/// There are no more files of one size than files.
proof fn lemma_count_bound(files: Seq<FileEntry>, s: u64)
    ensures
        size_indices(files, s).len() <= files.len(),
    decreases files.len(),
{
    if files.len() > 0 {
        lemma_count_bound(files.drop_last(), s);
    }
}

/// The files of size `s` among the first `j` are a prefix of those of the
/// whole list.
proof fn lemma_prefix_count(files: Seq<FileEntry>, j: int, s: u64)
    requires
        0 <= j <= files.len(),
    ensures
        size_indices(files.take(j), s).len() <= size_indices(files, s).len(),
        files.take(j) == files ==> size_indices(files.take(j), s) == size_indices(files, s),
    decreases files.len() - j,
{
    if j < files.len() {
        lemma_prefix_count(files, j + 1, s);
        assert(files.take(j + 1).drop_last() =~= files.take(j));
    } else {
        assert(files.take(j) =~= files);
    }
}

/// A content match group: files sharing the same BLAKE3 hash.
#[derive(Debug, Clone)]
pub struct ContentMatch {
    /// The full BLAKE3 hash shared by all files in this group.
    pub hash: [u8; 32],
    /// Indices of files with this hash (into the original input slice).
    pub file_indices: Vec<usize>,
}

/// The members whose hash is `h`, in order.
pub open spec fn with_hash(members: Seq<usize>, hashes: Seq<Option<[u8; 32]>>, h: Seq<u8>) -> Seq<usize>
    decreases members.len(),
{
    if members.len() == 0 || hashes.len() < members.len() {
        seq![]
    } else {
        let k = members.len() - 1;
        let prev = with_hash(members.drop_last(), hashes.take(k), h);
        match hashes[k] {
            Some(x) => if x@ == h {
                prev.push(members.last())
            } else {
                prev
            },
            None => prev,
        }
    }
}

/// The members split by hash: each group holds all members of one hash, in
/// order; groups differ in hash; a member whose hash is missing is left out.
pub open spec fn splits_by_hash(groups: Seq<([u8; 32], Vec<usize>)>, members: Seq<usize>, hashes: Seq<Option<[u8; 32]>>) -> bool {
    &&& forall|g: int| 0 <= g < groups.len() ==> (#[trigger] groups[g]).1@ == with_hash(members, hashes, groups[g].0@) && groups[g].1@.len() >= 1
    &&& forall|a: int, b: int| 0 <= a < b < groups.len() ==> (#[trigger] groups[a]).0@ != (#[trigger] groups[b]).0@
    &&& forall|k: int| 0 <= k < members.len() && (#[trigger] hashes[k]) is Some ==> exists|g: int| 0 <= g < groups.len() && groups[g].0 == hashes[k]->0
}

/// Group the members by their hashes (`hashes[k]` is the hash of
/// `members[k]`, `None` where hashing failed).
pub fn hash_groups(members: &[usize], hashes: &[Option<[u8; 32]>]) -> (groups: Vec<([u8; 32], Vec<usize>)>)
    requires
        hashes@.len() == members@.len(),
    ensures
        splits_by_hash(groups@, members@, hashes@),
{
    let mut groups: Vec<([u8; 32], Vec<usize>)> = Vec::new();
    let mut k: usize = 0;
    while k < members.len()
        invariant
            0 <= k <= members@.len(),
            hashes@.len() == members@.len(),
            forall|g: int| 0 <= g < groups@.len() ==> (#[trigger] groups@[g]).1@ == with_hash(members@.take(k as int), hashes@.take(k as int), groups@[g].0@) && groups@[g].1@.len() >= 1,
            forall|a: int, b: int| 0 <= a < b < groups@.len() ==> (#[trigger] groups@[a]).0@ != (#[trigger] groups@[b]).0@,
            forall|q: int| 0 <= q < k && (#[trigger] hashes@[q]) is Some ==> exists|g: int| 0 <= g < groups@.len() && groups@[g].0 == hashes@[q]->0,
        decreases members@.len() - k,
    {
        let ghost mpre = members@.take(k as int);
        let ghost hpre = hashes@.take(k as int);
        let ghost mpost = members@.take(k + 1);
        let ghost hpost = hashes@.take(k + 1);
        proof {
            assert(mpost.drop_last() =~= mpre);
            assert(hpost.take(k as int) =~= hpre);
            assert(mpost.last() == members@[k as int]);
            assert(hpost[k as int] == hashes@[k as int]);
        }
        match hashes[k] {
            Some(h) => {
                let mut g: usize = 0;
                while g < groups.len() && !hash_eq32(&groups[g].0, &h)
                    invariant
                        0 <= g <= groups@.len(),
                        forall|q: int| 0 <= q < g ==> (#[trigger] groups@[q]).0@ != h@,
                    decreases groups@.len() - g,
                {
                    g = g + 1;
                }
                let ghost before = groups@;
                if g < groups.len() {
                    let mut entry = groups.remove(g);
                    entry.1.push(members[k]);
                    groups.insert(g, entry);
                } else {
                    let mut v: Vec<usize> = Vec::new();
                    v.push(members[k]);
                    groups.push((h, v));
                    proof {
                        lemma_with_hash_absent(mpre, hpre, h@);
                        assert(with_hash(mpre, hpre, h@) =~= Seq::<usize>::empty());
                    }
                }
                proof {
                    assert forall|q: int| 0 <= q < groups@.len() implies (#[trigger] groups@[q]).1@ == with_hash(mpost, hpost, groups@[q].0@) && groups@[q].1@.len() >= 1 by {
                        if q != g {
                            assert(groups@[q] == before[q]);
                        }
                    }
                    assert forall|a: int, b: int| 0 <= a < b < groups@.len() implies (#[trigger] groups@[a]).0@ != (#[trigger] groups@[b]).0@ by {
                        if a != g && b != g {
                            assert(groups@[a] == before[a] && groups@[b] == before[b]);
                        } else if a == g {
                            assert(groups@[b] == before[b]);
                        } else {
                            assert(groups@[a] == before[a]);
                        }
                    }
                    assert forall|q: int| 0 <= q < k + 1 && (#[trigger] hashes@[q]) is Some implies exists|gg: int| 0 <= gg < groups@.len() && groups@[gg].0 == hashes@[q]->0 by {
                        if q < k {
                            let gg = choose|gg: int| 0 <= gg < before.len() && before[gg].0 == hashes@[q]->0;
                            assert(groups@[gg].0 == before[gg].0);
                        } else {
                            assert(groups@[g as int].0@ == h@);
                            assert(groups@[g as int].0 =~= h);
                        }
                    }
                }
            },
            None => {
                proof {
                    assert forall|q: int| 0 <= q < groups@.len() implies (#[trigger] groups@[q]).1@ == with_hash(mpost, hpost, groups@[q].0@) by {}
                }
            },
        }
        k = k + 1;
    }
    proof {
        assert(members@.take(members@.len() as int) =~= members@);
        assert(hashes@.take(hashes@.len() as int) =~= hashes@);
    }
    groups
}

/// No member has a hash that no group was opened for.
proof fn lemma_with_hash_absent(members: Seq<usize>, hashes: Seq<Option<[u8; 32]>>, h: Seq<u8>)
    requires
        hashes.len() == members.len(),
        forall|q: int| 0 <= q < members.len() && (#[trigger] hashes[q]) is Some ==> hashes[q]->0@ != h,
    ensures
        with_hash(members, hashes, h).len() == 0,
    decreases members.len(),
{
    if members.len() > 0 {
        let k = members.len() - 1;
        assert forall|q: int| 0 <= q < k && (#[trigger] hashes.take(k)[q]) is Some implies hashes.take(k)[q]->0@ != h by {
            assert(hashes.take(k)[q] == hashes[q]);
        }
        lemma_with_hash_absent(members.drop_last(), hashes.take(k), h);
    }
}

/// Whether two hashes are equal.
fn hash_eq32(a: &[u8; 32], b: &[u8; 32]) -> (r: bool)
    ensures
        r == (a@ == b@),
{
    let mut i: usize = 0;
    while i < 32
        invariant
            0 <= i <= 32,
            a@.len() == 32,
            b@.len() == 32,
            forall|k: int| 0 <= k < i ==> a@[k] == b@[k],
        decreases 32 - i,
    {
        if a[i] != b[i] {
            return false;
        }
        i = i + 1;
    }
    proof {
        assert(a@ =~= b@);
    }
    true
}

/// The pairs of `x` with each of `rest`.
pub open spec fn pairs_with(x: usize, rest: Seq<usize>) -> Seq<(usize, usize, MatchKind)> {
    rest.map_values(|y: usize| (x, y, MatchKind::Content))
}

/// Every pair of members `(s[i], s[j])` with `i < j`, ordered by `i` then `j`.
pub open spec fn pairs_of(s: Seq<usize>) -> Seq<(usize, usize, MatchKind)>
    decreases s.len(),
{
    if s.len() == 0 {
        seq![]
    } else {
        pairs_with(s[0], s.drop_first()) + pairs_of(s.drop_first())
    }
}

/// The pairs of each group in turn.
pub open spec fn group_pairs(groups: Seq<([u8; 32], Vec<usize>)>) -> Seq<(usize, usize, MatchKind)>
    decreases groups.len(),
{
    if groups.len() == 0 {
        seq![]
    } else {
        group_pairs(groups.drop_last()) + pairs_of(groups.last().1@)
    }
}

/// Every pair of the given files, as content matches.
pub fn all_pairs(indices: &[usize]) -> (r: Vec<(usize, usize, MatchKind)>)
    ensures
        r@ == pairs_of(indices@),
{
    let mut out: Vec<(usize, usize, MatchKind)> = Vec::new();
    let mut i: usize = 0;
    proof {
        assert(indices@.skip(0) =~= indices@);
    }
    while i < indices.len()
        invariant
            0 <= i <= indices@.len(),
            pairs_of(indices@) == out@ + pairs_of(indices@.skip(i as int)),
        decreases indices@.len() - i,
    {
        let ghost rest = indices@.skip(i as int);
        let ghost start = out@;
        let mut j: usize = i + 1;
        while j < indices.len()
            invariant
                i < j <= indices@.len(),
                rest == indices@.skip(i as int),
                out@ == start + pairs_with(indices@[i as int], indices@.subrange(i + 1, j as int)),
            decreases indices@.len() - j,
        {
            out.push((indices[i], indices[j], MatchKind::Content));
            proof {
                assert(indices@.subrange(i + 1, j + 1) =~= indices@.subrange(i + 1, j as int).push(indices@[j as int]));
                assert(pairs_with(indices@[i as int], indices@.subrange(i + 1, j + 1)) =~= pairs_with(indices@[i as int], indices@.subrange(i + 1, j as int)).push((indices@[i as int], indices@[j as int], MatchKind::Content)));
            }
            j = j + 1;
        }
        proof {
            assert(rest[0] == indices@[i as int]);
            assert(rest.drop_first() =~= indices@.subrange(i + 1, indices@.len() as int));
            assert(rest.drop_first() =~= indices@.skip(i + 1));
            assert(pairs_of(rest) == pairs_with(rest[0], rest.drop_first()) + pairs_of(rest.drop_first()));
        }
        i = i + 1;
    }
    proof {
        assert(indices@.skip(indices@.len() as int) =~= Seq::<usize>::empty());
        assert(out@ + Seq::<(usize, usize, MatchKind)>::empty() =~= out@);
    }
    out
}

/// Two positions of `with_hash` come from two positions of the members, in
/// the same order, both holding the hash.
proof fn lemma_with_hash_positions(members: Seq<usize>, hashes: Seq<Option<[u8; 32]>>, h: Seq<u8>, a: int, b: int)
    requires
        hashes.len() == members.len(),
        0 <= a < b < with_hash(members, hashes, h).len(),
    ensures
        exists|i: int, j: int| #![trigger members[i], members[j]]
            0 <= i < j < members.len() && members[i] == with_hash(members, hashes, h)[a]
                && members[j] == with_hash(members, hashes, h)[b] && hashes[i] is Some && hashes[i]->0@ == h
                && hashes[j] is Some && hashes[j]->0@ == h,
    decreases members.len(),
{
    let k = members.len() - 1;
    let pm = members.drop_last();
    let ph = hashes.take(k);
    let prev = with_hash(pm, ph, h);
    if b < prev.len() {
        lemma_with_hash_positions(pm, ph, h, a, b);
        let (i, j) = choose|i: int, j: int| #![trigger pm[i], pm[j]]
            0 <= i < j < pm.len() && pm[i] == prev[a] && pm[j] == prev[b] && ph[i] is Some && ph[i]->0@ == h
                && ph[j] is Some && ph[j]->0@ == h;
        assert(members[i] == pm[i] && members[j] == pm[j]);
        assert(hashes[i] == ph[i] && hashes[j] == ph[j]);
        assert(with_hash(members, hashes, h)[a] == prev[a] && with_hash(members, hashes, h)[b] == prev[b]);
    } else {
        lemma_with_hash_position(pm, ph, h, a);
        let i = choose|i: int| #![trigger pm[i]] 0 <= i < pm.len() && pm[i] == prev[a] && ph[i] is Some && ph[i]->0@ == h;
        assert(members[i] == pm[i]);
        assert(hashes[i] == ph[i]);
        assert(with_hash(members, hashes, h)[a] == prev[a]);
        assert(members[k] == with_hash(members, hashes, h)[b]);
    }
}

/// A position of `with_hash` comes from a member holding the hash.
proof fn lemma_with_hash_position(members: Seq<usize>, hashes: Seq<Option<[u8; 32]>>, h: Seq<u8>, a: int)
    requires
        hashes.len() == members.len(),
        0 <= a < with_hash(members, hashes, h).len(),
    ensures
        exists|i: int| #![trigger members[i]]
            0 <= i < members.len() && members[i] == with_hash(members, hashes, h)[a] && hashes[i] is Some
                && hashes[i]->0@ == h,
    decreases members.len(),
{
    let k = members.len() - 1;
    let pm = members.drop_last();
    let ph = hashes.take(k);
    let prev = with_hash(pm, ph, h);
    if a < prev.len() {
        lemma_with_hash_position(pm, ph, h, a);
        let i = choose|i: int| #![trigger pm[i]] 0 <= i < pm.len() && pm[i] == prev[a] && ph[i] is Some && ph[i]->0@ == h;
        assert(members[i] == pm[i]);
        assert(hashes[i] == ph[i]);
        assert(with_hash(members, hashes, h)[a] == prev[a]);
    } else {
        assert(members[k] == with_hash(members, hashes, h)[a]);
    }
}

/// Each pair of `pairs_of(s)` joins two positions of `s`, the first before
/// the second.
proof fn lemma_pairs_of_positions(s: Seq<usize>, k: int)
    requires
        0 <= k < pairs_of(s).len(),
    ensures
        exists|a: int, b: int| #![trigger s[a], s[b]]
            0 <= a < b < s.len() && pairs_of(s)[k] == (s[a], s[b], MatchKind::Content),
    decreases s.len(),
{
    let rest = s.drop_first();
    let head = pairs_with(s[0], rest);
    if k < head.len() {
        assert(pairs_of(s)[k] == head[k]);
        assert(s[k + 1] == rest[k]);
        assert(pairs_of(s)[k] == (s[0], s[k + 1], MatchKind::Content));
    } else {
        assert(pairs_of(s)[k] == pairs_of(rest)[k - head.len()]);
        lemma_pairs_of_positions(rest, k - head.len());
        let (a, b) = choose|a: int, b: int| #![trigger rest[a], rest[b]]
            0 <= a < b < rest.len() && pairs_of(rest)[k - head.len()] == (rest[a], rest[b], MatchKind::Content);
        assert(s[a + 1] == rest[a] && s[b + 1] == rest[b]);
    }
}

/// Each pair of `group_pairs(groups)` comes from the pairs of one group.
proof fn lemma_group_pairs_source(groups: Seq<([u8; 32], Vec<usize>)>, k: int)
    requires
        0 <= k < group_pairs(groups).len(),
    ensures
        exists|g: int, m: int| #![trigger groups[g], pairs_of(groups[g].1@)[m]]
            0 <= g < groups.len() && 0 <= m < pairs_of(groups[g].1@).len() && group_pairs(groups)[k]
                == pairs_of(groups[g].1@)[m],
    decreases groups.len(),
{
    let prev = group_pairs(groups.drop_last());
    let g = groups.len() - 1;
    if k < prev.len() {
        lemma_group_pairs_source(groups.drop_last(), k);
        let (g0, m) = choose|g0: int, m: int| #![trigger groups.drop_last()[g0], pairs_of(groups.drop_last()[g0].1@)[m]]
            0 <= g0 < groups.drop_last().len() && 0 <= m < pairs_of(groups.drop_last()[g0].1@).len()
                && prev[k] == pairs_of(groups.drop_last()[g0].1@)[m];
        assert(groups.drop_last()[g0] == groups[g0]);
        assert(group_pairs(groups)[k] == prev[k]);
    } else {
        assert(groups.last() == groups[g]);
        assert(group_pairs(groups)[k] == pairs_of(groups[g].1@)[k - prev.len()]);
    }
}

/// `p` pairs two listed files, the first listed before the second, whose
/// hashes are known and equal.
pub open spec fn pair_matches(members: Seq<usize>, hashes: Seq<Option<[u8; 32]>>, p: (usize, usize, MatchKind)) -> bool {
    exists|i: int, j: int| #![trigger members[i], members[j]]
        0 <= i < j < members.len() && p == (members[i], members[j], MatchKind::Content) && hashes[i] is Some
            && hashes[i] == hashes[j]
}

/// Every pair of a split joins two members, in order, with the same hash.
pub proof fn lemma_split_pairs_match(groups: Seq<([u8; 32], Vec<usize>)>, members: Seq<usize>, hashes: Seq<Option<[u8; 32]>>, k: int)
    requires
        hashes.len() == members.len(),
        splits_by_hash(groups, members, hashes),
        0 <= k < group_pairs(groups).len(),
    ensures
        pair_matches(members, hashes, group_pairs(groups)[k]),
{
    lemma_group_pairs_source(groups, k);
    let (g, m) = choose|g: int, m: int| #![trigger groups[g], pairs_of(groups[g].1@)[m]]
        0 <= g < groups.len() && 0 <= m < pairs_of(groups[g].1@).len() && group_pairs(groups)[k] == pairs_of(groups[g].1@)[m];
    let s = groups[g].1@;
    let key = groups[g].0@;
    assert(s == with_hash(members, hashes, key));
    lemma_pairs_of_positions(s, m);
    let (a, b) = choose|a: int, b: int| #![trigger s[a], s[b]] 0 <= a < b < s.len() && pairs_of(s)[m] == (s[a], s[b], MatchKind::Content);
    lemma_with_hash_positions(members, hashes, key, a, b);
    let (i, j) = choose|i: int, j: int| #![trigger members[i], members[j]]
        0 <= i < j < members.len() && members[i] == with_hash(members, hashes, key)[a]
            && members[j] == with_hash(members, hashes, key)[b] && hashes[i] is Some && hashes[i]->0@ == key
            && hashes[j] is Some && hashes[j]->0@ == key;
    assert(hashes[i]->0@ == hashes[j]->0@);
    assert(hashes[i]->0 =~= hashes[j]->0);
}

/// Every pair of a split joins two members, in order, with the same hash.
pub proof fn lemma_all_pairs_match(groups: Seq<([u8; 32], Vec<usize>)>, members: Seq<usize>, hashes: Seq<Option<[u8; 32]>>, out: Seq<(usize, usize, MatchKind)>)
    requires
        hashes.len() == members.len(),
        splits_by_hash(groups, members, hashes),
        out == group_pairs(groups),
    ensures
        forall|k: int| 0 <= k < out.len() ==> pair_matches(members, hashes, #[trigger] out[k]),
{
    assert forall|k: int| 0 <= k < out.len() implies pair_matches(members, hashes, #[trigger] out[k]) by {
        lemma_split_pairs_match(groups, members, hashes, k);
    }
}

/// The content matches among files whose full hashes are known: every pair
/// of members sharing a hash, group by group.
pub fn content_pairs(members: &[usize], full: &[Option<[u8; 32]>]) -> (r: Vec<(usize, usize, MatchKind)>)
    requires
        full@.len() == members@.len(),
    ensures
        exists|groups: Seq<([u8; 32], Vec<usize>)>| splits_by_hash(groups, members@, full@) && r@ == group_pairs(groups),
        forall|k: int| 0 <= k < r@.len() ==> pair_matches(members@, full@, #[trigger] r@[k]),
{
    let groups = hash_groups(members, full);
    let mut out: Vec<(usize, usize, MatchKind)> = Vec::new();
    let mut g: usize = 0;
    while g < groups.len()
        invariant
            0 <= g <= groups@.len(),
            out@ == group_pairs(groups@.take(g as int)),
        decreases groups@.len() - g,
    {
        let mut p = all_pairs(groups[g].1.as_slice());
        proof {
            assert(groups@.take(g + 1).drop_last() =~= groups@.take(g as int));
            assert(groups@.take(g + 1).last() == groups@[g as int]);
        }
        out.append(&mut p);
        g = g + 1;
    }
    proof {
        assert(groups@.take(groups@.len() as int) =~= groups@);
        assert(out@ == group_pairs(groups@));
        lemma_all_pairs_match(groups@, members@, full@, out@);
    }
    out
}

/// The number of files whose size lies within the bounds.
pub open spec fn in_range_count(files: Seq<FileEntry>, min_size: u64, max_size: Option<u64>) -> nat
    decreases files.len(),
{
    if files.len() == 0 {
        0
    } else {
        let f = files.last();
        in_range_count(files.drop_last(), min_size, max_size) + if f.size >= min_size && (match max_size {
            Some(m) => f.size <= m,
            None => true,
        }) {
            1nat
        } else {
            0nat
        }
    }
}

/// How many files a scan with these bounds looks at.
pub fn count_in_size_range(files: &[FileEntry], min_size: u64, max_size: Option<u64>) -> (r: usize)
    ensures
        r == in_range_count(files@, min_size, max_size),
{
    let mut n: usize = 0;
    let mut i: usize = 0;
    while i < files.len()
        invariant
            0 <= i <= files@.len(),
            n == in_range_count(files@.take(i as int), min_size, max_size),
            n <= i,
        decreases files@.len() - i,
    {
        proof {
            assert(files@.take(i + 1).drop_last() =~= files@.take(i as int));
            assert(files@.take(i + 1).last() == files@[i as int]);
        }
        let s = files[i].size;
        let fits = match max_size {
            Some(m) => s <= m,
            None => true,
        };
        if s >= min_size && fits {
            n = n + 1;
        }
        i = i + 1;
    }
    proof {
        assert(files@.take(files@.len() as int) =~= files@);
    }
    n
}

/// Bytes wasted over all groups.
pub open spec fn wasted_total(groups: Seq<DupeGroup>) -> nat
    decreases groups.len(),
{
    if groups.len() == 0 {
        0
    } else {
        wasted_total(groups.drop_last()) + groups.last().total_wasted_bytes as nat
    }
}

/// Duplicate files over all groups (references excluded).
pub open spec fn duplicate_total(groups: Seq<DupeGroup>) -> nat
    decreases groups.len(),
{
    if groups.len() == 0 {
        0
    } else {
        duplicate_total(groups.drop_last()) + groups.last().duplicates@.len()
    }
}

/// The report's totals: wasted bytes and duplicate files over all groups.
#[verifier::rlimit(80)]
#[verifier::spinoff_prover]
pub fn report_totals(groups: &[DupeGroup]) -> (r: (u64, usize))
    requires
        wasted_total(groups@) <= u64::MAX,
        duplicate_total(groups@) <= usize::MAX,
    ensures
        r.0 == wasted_total(groups@),
        r.1 == duplicate_total(groups@),
{
    let mut bytes: u64 = 0;
    let mut count: usize = 0;
    let mut i: usize = 0;
    while i < groups.len()
        invariant
            0 <= i <= groups@.len(),
            wasted_total(groups@) <= u64::MAX,
            duplicate_total(groups@) <= usize::MAX,
            bytes == wasted_total(groups@.take(i as int)),
            count == duplicate_total(groups@.take(i as int)),
        decreases groups@.len() - i,
    {
        proof {
            assert(groups@.take(i + 1).drop_last() =~= groups@.take(i as int));
            assert(groups@.take(i + 1).last() == groups@[i as int]);
            lemma_totals_prefix(groups@, i + 1);
        }
        bytes = bytes + groups[i].total_wasted_bytes;
        count = count + groups[i].duplicates.len();
        i = i + 1;
    }
    proof {
        assert(groups@.take(groups@.len() as int) =~= groups@);
    }
    (bytes, count)
}

/// Totals of a prefix are no larger than the whole.
proof fn lemma_totals_prefix(groups: Seq<DupeGroup>, j: int)
    requires
        0 <= j <= groups.len(),
    ensures
        wasted_total(groups.take(j)) <= wasted_total(groups),
        duplicate_total(groups.take(j)) <= duplicate_total(groups),
    decreases groups.len() - j,
{
    if j < groups.len() {
        lemma_totals_prefix(groups, j + 1);
        assert(groups.take(j + 1).drop_last() =~= groups.take(j));
    } else {
        assert(groups.take(j) =~= groups);
    }
}

} // verus!
