//! Union-find grouping and reference selection for duplicate groups.
//!
//! Pairwise duplicate matches are merged into transitive groups using
//! union-find; a "reference" file (the likely original) is then selected for
//! each group: shallowest path, oldest mtime, no "copy" pattern in the name.

use vstd::prelude::*;
use crate::dedup::file_entry::{FileEntry, copy_pattern};
use crate::path::depth;
use crate::text::lowercase;

verus! {

// ───────────────────────────── union-find ─────────────────────────────

/// Union-find (disjoint set) data structure with path compression and rank.
pub struct UnionFind {
    parent: Vec<usize>,
    rank: Vec<usize>,
}

/// The representative reached from `i` by following parent links. Each step
/// goes to a strictly higher rank, which bounds the walk.
pub open spec fn root_of(parent: Seq<usize>, rank: Seq<usize>, i: int) -> int
    decreases usize::MAX - rank[i],
{
    if 0 <= i < parent.len() && parent[i] != i && 0 <= parent[i] < parent.len() && rank[i]
        < rank[parent[i] as int] {
        root_of(parent, rank, parent[i] as int)
    } else {
        i
    }
}

/// Number of elements below `k` that are their own parent.
pub open spec fn count_roots(parent: Seq<usize>, k: int) -> int
    decreases k,
{
    if k <= 0 {
        0
    } else {
        count_roots(parent, k - 1) + if parent[k - 1] as int == k - 1 {
            1int
        } else {
            0int
        }
    }
}

/// Structural invariant of the parent/rank arrays.
pub open spec fn uf_wf(parent: Seq<usize>, rank: Seq<usize>) -> bool {
    &&& parent.len() == rank.len()
    &&& parent.len() <= usize::MAX
    &&& forall|i: int| 0 <= i < parent.len() ==> (#[trigger] parent[i]) < parent.len()
    &&& forall|i: int|
        0 <= i < parent.len() && #[trigger] parent[i] != i ==> rank[i] < rank[parent[i] as int]
    &&& forall|i: int|
        0 <= i < parent.len() ==> #[trigger] rank[i] + count_roots(parent, parent.len() as int)
            <= parent.len()
}

/// The representative of each element after uniting the sets of `x` and `y`,
/// given the representatives and ranks before.
pub open spec fn union_reps(reps: Seq<int>, ranks: Seq<int>, x: int, y: int) -> Seq<int> {
    let rx = reps[x];
    let ry = reps[y];
    if rx == ry {
        reps
    } else if ranks[rx] < ranks[ry] {
        Seq::new(reps.len(), |i: int| if reps[i] == rx { ry } else { reps[i] })
    } else {
        Seq::new(reps.len(), |i: int| if reps[i] == ry { rx } else { reps[i] })
    }
}

/// The ranks after uniting the sets of `x` and `y`: only a tie between the two
/// representatives raises the rank of the one that stays representative.
pub open spec fn union_ranks(reps: Seq<int>, ranks: Seq<int>, x: int, y: int) -> Seq<int> {
    let rx = reps[x];
    let ry = reps[y];
    if rx != ry && ranks[rx] == ranks[ry] {
        ranks.update(rx, ranks[rx] + 1)
    } else {
        ranks
    }
}

impl UnionFind {
    /// Structural well-formedness.
    pub closed spec fn wf(&self) -> bool {
        uf_wf(self.parent@, self.rank@)
    }

    /// Number of elements.
    pub closed spec fn size(&self) -> nat {
        self.parent@.len()
    }

    /// The representative of every element.
    pub closed spec fn reps(&self) -> Seq<int> {
        Seq::new(self.parent@.len(), |i: int| root_of(self.parent@, self.rank@, i))
    }

    /// The rank of every element (only representatives' ranks are ever read).
    pub closed spec fn ranks(&self) -> Seq<int> {
        Seq::new(self.rank@.len(), |i: int| self.rank@[i] as int)
    }

    /// Representatives are in range and represent themselves.
    pub proof fn lemma_reps(&self)
        requires
            self.wf(),
        ensures
            self.reps().len() == self.size(),
            self.ranks().len() == self.size(),
            forall|i: int|
                0 <= i < self.size() ==> 0 <= #[trigger] self.reps()[i] < self.size()
                    && self.reps()[self.reps()[i]] == self.reps()[i],
    {
        assert forall|i: int| 0 <= i < self.size() implies 0 <= #[trigger] self.reps()[i]
            < self.size() && self.reps()[self.reps()[i]] == self.reps()[i] by {
            lemma_root_of(self.parent@, self.rank@, i);
            let r = root_of(self.parent@, self.rank@, i);
            lemma_root_of(self.parent@, self.rank@, r);
        }
    }

    /// Create a new union-find with `n` elements, each in its own set.
    pub fn new(n: usize) -> (r: Self)
        ensures
            r.wf(),
            r.size() == n,
            forall|i: int| 0 <= i < n ==> #[trigger] r.reps()[i] == i,
            forall|i: int| 0 <= i < n ==> #[trigger] r.ranks()[i] == 0,
    {
        let mut parent: Vec<usize> = Vec::new();
        let mut rank: Vec<usize> = Vec::new();
        let mut i: usize = 0;
        while i < n
            invariant
                0 <= i <= n,
                parent@.len() == i,
                rank@.len() == i,
                forall|k: int| 0 <= k < i ==> #[trigger] parent@[k] == k,
                forall|k: int| 0 <= k < i ==> #[trigger] rank@[k] == 0,
            decreases n - i,
        {
            parent.push(i);
            rank.push(0);
            i = i + 1;
        }
        proof {
            lemma_count_all_roots(parent@, n as int);
        }
        let r = UnionFind { parent, rank };
        proof {
            assert forall|i: int| 0 <= i < n implies #[trigger] r.reps()[i] == i by {
                assert(r.parent@[i] == i);
            }
        }
        r
    }

    /// Find the representative of the set containing `x` (with path compression).
    pub fn find(&mut self, x: usize) -> (r: usize)
        requires
            old(self).wf(),
            x < old(self).size(),
        ensures
            final(self).wf(),
            final(self).size() == old(self).size(),
            final(self).reps() == old(self).reps(),
            final(self).ranks() == old(self).ranks(),
            r == old(self).reps()[x as int],
        decreases usize::MAX - old(self).ranks()[x as int],
    {
        let p = self.parent[x];
        if p != x {
            let ghost before = *self;
            let r = self.find(p);
            proof {
                assert(root_of(before.parent@, before.rank@, x as int) == root_of(
                    before.parent@,
                    before.rank@,
                    p as int,
                ));
                assert(self.reps()[x as int] == before.reps()[x as int]);
                assert(self.reps()[p as int] == before.reps()[p as int]);
                lemma_compress(self.parent@, self.rank@, x as int);
            }
            self.parent.set(x, r);
            proof {
                assert(self.ranks() =~= before.ranks());
                assert(self.reps() =~= before.reps());
            }
            r
        } else {
            x
        }
    }

    /// Union the sets containing `x` and `y` (by rank).
    pub fn union(&mut self, x: usize, y: usize)
        requires
            old(self).wf(),
            x < old(self).size(),
            y < old(self).size(),
        ensures
            final(self).wf(),
            final(self).size() == old(self).size(),
            final(self).reps() == union_reps(
                old(self).reps(),
                old(self).ranks(),
                x as int,
                y as int,
            ),
            final(self).ranks() == union_ranks(
                old(self).reps(),
                old(self).ranks(),
                x as int,
                y as int,
            ),
    {
        let ghost start = *self;
        let rx = self.find(x);
        let ry = self.find(y);
        if rx == ry {
            return;
        }
        proof {
            start.lemma_reps();
            lemma_root_of(self.parent@, self.rank@, rx as int);
            lemma_root_of(self.parent@, self.rank@, ry as int);
            lemma_two_roots(self.parent@, rx as int, ry as int, self.parent@.len() as int);
        }
        let ghost mid = *self;
        if self.rank[rx] < self.rank[ry] {
            proof {
                lemma_link(mid.parent@, mid.rank@, rx as int, ry as int, false);
            }
            self.parent.set(rx, ry);
        } else if self.rank[rx] > self.rank[ry] {
            proof {
                lemma_link(mid.parent@, mid.rank@, ry as int, rx as int, false);
            }
            self.parent.set(ry, rx);
        } else {
            proof {
                lemma_link(mid.parent@, mid.rank@, ry as int, rx as int, true);
            }
            self.parent.set(ry, rx);
            let nr = self.rank[rx] + 1;
            self.rank.set(rx, nr);
        }
        proof {
            let n = self.parent@.len() as int;
            let target = union_reps(start.reps(), start.ranks(), x as int, y as int);
            assert(start.reps() == mid.reps());
            assert(start.ranks() == mid.ranks());
            assert forall|i: int| 0 <= i < n implies #[trigger] self.reps()[i] == target[i] by {
                assert(self.reps()[i] == root_of(self.parent@, self.rank@, i));
                assert(mid.reps()[i] == root_of(mid.parent@, mid.rank@, i));
            }
            assert(self.reps() =~= target);
            assert(self.ranks() =~= union_ranks(start.reps(), start.ranks(), x as int, y as int));
        }
    }
}

/// Basic facts about the representative of `i`.
pub proof fn lemma_root_of(parent: Seq<usize>, rank: Seq<usize>, i: int)
    requires
        uf_wf(parent, rank),
        0 <= i < parent.len(),
    ensures
        0 <= root_of(parent, rank, i) < parent.len(),
        parent[root_of(parent, rank, i)] == root_of(parent, rank, i),
        root_of(parent, rank, i) != i ==> rank[i] < rank[root_of(parent, rank, i)],
        parent[i] == i ==> root_of(parent, rank, i) == i,
        parent[i] != i ==> root_of(parent, rank, i) == root_of(parent, rank, parent[i] as int),
    decreases usize::MAX - rank[i],
{
    if parent[i] != i {
        lemma_root_of(parent, rank, parent[i] as int);
    }
}

/// Pointing `x` straight at its representative changes no representative and
/// keeps the structure well formed.
pub proof fn lemma_compress(parent: Seq<usize>, rank: Seq<usize>, x: int)
    requires
        uf_wf(parent, rank),
        0 <= x < parent.len(),
    ensures
        ({
            let r = root_of(parent, rank, x);
            let p2 = parent.update(x, r as usize);
            &&& uf_wf(p2, rank)
            &&& forall|i: int|
                0 <= i < parent.len() ==> #[trigger] root_of(p2, rank, i) == root_of(
                    parent,
                    rank,
                    i,
                )
        }),
{
    let r = root_of(parent, rank, x);
    lemma_root_of(parent, rank, x);
    let p2 = parent.update(x, r as usize);
    assert forall|j: int| 0 <= j < parent.len() implies (p2[j] == j) == (parent[j] == j) by {}
    lemma_count_same(parent, p2, parent.len() as int);
    assert forall|i: int| 0 <= i < parent.len() implies #[trigger] root_of(p2, rank, i) == root_of(
        parent,
        rank,
        i,
    ) by {
        lemma_compress_at(parent, rank, x, i);
    }
}

proof fn lemma_compress_at(parent: Seq<usize>, rank: Seq<usize>, x: int, i: int)
    requires
        uf_wf(parent, rank),
        0 <= x < parent.len(),
        0 <= i < parent.len(),
    ensures
        root_of(parent.update(x, root_of(parent, rank, x) as usize), rank, i) == root_of(
            parent,
            rank,
            i,
        ),
    decreases usize::MAX - rank[i],
{
    let r = root_of(parent, rank, x);
    lemma_root_of(parent, rank, x);
    lemma_root_of(parent, rank, i);
    let p2 = parent.update(x, r as usize);
    if i == x {
        if r != x {
            assert(p2[r] == r);
            assert(root_of(p2, rank, r) == r);
            assert(p2[x] as int == r);
            assert(rank[x] < rank[r]);
            assert(root_of(p2, rank, x) == root_of(p2, rank, r));
        }
    } else if parent[i] != i {
        lemma_compress_at(parent, rank, x, parent[i] as int);
        assert(p2[i] == parent[i]);
        assert(root_of(p2, rank, i) == root_of(p2, rank, parent[i] as int));
    } else {
        assert(p2[i] == parent[i]);
    }
}

/// The ranks after linking under `b`, raised by one at `b` on a tie.
pub open spec fn bumped(rank: Seq<usize>, b: int, bump: bool) -> Seq<usize> {
    if bump {
        rank.update(b, (rank[b] + 1) as usize)
    } else {
        rank
    }
}

/// Linking representative `a` under representative `b` (raising `b`'s rank on
/// a tie) moves `a`'s whole set to `b` and keeps the structure well formed.
pub proof fn lemma_link(parent: Seq<usize>, rank: Seq<usize>, a: int, b: int, bump: bool)
    requires
        uf_wf(parent, rank),
        0 <= a < parent.len(),
        0 <= b < parent.len(),
        a != b,
        parent[a] == a,
        parent[b] == b,
        bump ==> rank[a] == rank[b],
        !bump ==> rank[a] < rank[b],
        count_roots(parent, parent.len() as int) >= 2,
    ensures
        rank[b] + 1 <= usize::MAX,
        ({
            let p2 = parent.update(a, b as usize);
            let r2 = bumped(rank, b, bump);
            &&& uf_wf(p2, r2)
            &&& forall|i: int|
                0 <= i < parent.len() ==> #[trigger] root_of(p2, r2, i) == if root_of(
                    parent,
                    rank,
                    i,
                ) == a {
                    b
                } else {
                    root_of(parent, rank, i)
                }
        }),
{
    let n = parent.len() as int;
    let p2 = parent.update(a, b as usize);
    let r2 = bumped(rank, b, bump);
    lemma_count_unroot(parent, a, n);
    assert(count_roots(p2, n) == count_roots(parent, n) - 1);
    assert(rank[b] + count_roots(parent, n) <= n);
    assert forall|i: int| 0 <= i < n implies #[trigger] r2[i] + count_roots(p2, n) <= n by {
        assert(rank[i] + count_roots(parent, n) <= n);
    }
    assert forall|i: int| 0 <= i < n && #[trigger] p2[i] != i implies r2[i] < r2[p2[i] as int] by {
        if i != a {
            assert(parent[i] != i);
            assert(i != b);
        }
    }
    assert forall|i: int| 0 <= i < n implies #[trigger] root_of(p2, r2, i) == if root_of(
        parent,
        rank,
        i,
    ) == a {
        b
    } else {
        root_of(parent, rank, i)
    } by {
        lemma_link_at(parent, rank, a, b, bump, i);
    }
}

proof fn lemma_link_at(parent: Seq<usize>, rank: Seq<usize>, a: int, b: int, bump: bool, i: int)
    requires
        uf_wf(parent, rank),
        0 <= a < parent.len(),
        0 <= b < parent.len(),
        a != b,
        parent[a] == a,
        parent[b] == b,
        bump ==> rank[a] == rank[b],
        !bump ==> rank[a] < rank[b],
        rank[b] + 1 <= usize::MAX,
        0 <= i < parent.len(),
    ensures
        ({
            let p2 = parent.update(a, b as usize);
            let r2 = bumped(rank, b, bump);
            root_of(p2, r2, i) == if root_of(parent, rank, i) == a {
                b
            } else {
                root_of(parent, rank, i)
            }
        }),
    decreases usize::MAX - rank[i],
{
    let p2 = parent.update(a, b as usize);
    let r2 = bumped(rank, b, bump);
    lemma_root_of(parent, rank, i);
    if i == a {
        assert(p2[b] == b);
        assert(r2[a] < r2[b]);
        assert(root_of(p2, r2, b) == b);
    } else if i == b {
        assert(root_of(p2, r2, b) == b);
    } else if parent[i] != i {
        assert(p2[i] == parent[i]);
        assert(parent[i] as int != b || rank[i] < r2[b]);
        lemma_link_at(parent, rank, a, b, bump, parent[i] as int);
        assert(r2[i] < r2[p2[i] as int]);
    } else {
        assert(root_of(p2, r2, i) == i);
    }
}

/// With every element its own parent, all of them are counted.
pub proof fn lemma_count_all_roots(parent: Seq<usize>, k: int)
    requires
        0 <= k <= parent.len(),
        forall|j: int| 0 <= j < k ==> #[trigger] parent[j] == j,
    ensures
        count_roots(parent, k) == k,
    decreases k,
{
    if k > 0 {
        lemma_count_all_roots(parent, k - 1);
    }
}

/// Two arrays with the same roots below `k` count the same number of them.
pub proof fn lemma_count_same(p1: Seq<usize>, p2: Seq<usize>, k: int)
    requires
        0 <= k <= p1.len(),
        p1.len() == p2.len(),
        forall|j: int| 0 <= j < p1.len() ==> (p1[j] == j) == (p2[j] == j),
    ensures
        count_roots(p1, k) == count_roots(p2, k),
    decreases k,
{
    if k > 0 {
        lemma_count_same(p1, p2, k - 1);
    }
}

/// Turning the root `a` into a non-root removes one root from the count.
pub proof fn lemma_count_unroot(parent: Seq<usize>, a: int, k: int)
    requires
        0 <= a < parent.len(),
        0 <= k <= parent.len(),
        parent[a] == a,
    ensures
        forall|b: usize|
            b != a ==> #[trigger] count_roots(parent.update(a, b), k) == count_roots(parent, k) - (
            if a < k {
                1int
            } else {
                0int
            }),
    decreases k,
{
    if k > 0 {
        lemma_count_unroot(parent, a, k - 1);
        assert forall|b: usize| b != a implies #[trigger] count_roots(parent.update(a, b), k)
            == count_roots(parent, k) - (if a < k {
            1int
        } else {
            0int
        }) by {
            assert(count_roots(parent.update(a, b), k - 1) == count_roots(parent, k - 1) - (if a
                < k - 1 {
                1int
            } else {
                0int
            }));
        }
    }
}

/// Two distinct roots below `k` make the count at least two.
pub proof fn lemma_two_roots(parent: Seq<usize>, a: int, b: int, k: int)
    requires
        0 <= a < k,
        0 <= b < k,
        k <= parent.len(),
        a != b,
        parent[a] == a,
        parent[b] == b,
    ensures
        count_roots(parent, k) >= 2,
    decreases k,
{
    lemma_count_nonneg(parent, k);
    if a == k - 1 {
        lemma_one_root(parent, b, k - 1);
    } else if b == k - 1 {
        lemma_one_root(parent, a, k - 1);
    } else {
        lemma_two_roots(parent, a, b, k - 1);
    }
}

/// One root below `k` makes the count at least one.
pub proof fn lemma_one_root(parent: Seq<usize>, a: int, k: int)
    requires
        0 <= a < k,
        k <= parent.len(),
        parent[a] == a,
    ensures
        count_roots(parent, k) >= 1,
    decreases k,
{
    lemma_count_nonneg(parent, k - 1);
    if a < k - 1 {
        lemma_one_root(parent, a, k - 1);
    }
}

/// The count is never negative.
pub proof fn lemma_count_nonneg(parent: Seq<usize>, k: int)
    ensures
        count_roots(parent, k) >= 0,
    decreases k,
{
    if k > 0 {
        lemma_count_nonneg(parent, k - 1);
    }
}

// ─────────────────────────── reference selection ───────────────────────────

/// The kind of match that linked two files.
#[derive(Debug, Clone, Copy, PartialEq, Eq, Structural)]
pub enum MatchKind {
    /// Exact content match (same BLAKE3 hash).
    Content,
    /// Fuzzy filename match (Jaro-Winkler similarity).
    FuzzyFilename,
    /// Perceptual image match (blockhash Hamming distance).
    PerceptualImage,
}

/// A group of duplicate files with a selected reference.
#[derive(Debug, Clone)]
pub struct DupeGroup {
    /// The file deemed most likely to be the "original".
    pub reference: FileEntry,
    /// The duplicate files (excluding the reference).
    pub duplicates: Vec<FileEntry>,
    /// How the duplicates were detected.
    pub match_kind: MatchKind,
    /// Total bytes wasted by the duplicates (sum of duplicate sizes).
    pub total_wasted_bytes: u64,
}

/// Integer division rounding toward zero, for a positive divisor.
pub open spec fn div_toward_zero(a: int, d: int) -> int {
    if a >= 0 {
        a / d
    } else {
        -((-a) / d)
    }
}

/// How likely a file is to be the original: ten points lost per path level,
/// fifty for a copy pattern in the name, and one per million seconds of mtime.
pub open spec fn score_of(depth: int, has_copy: bool, modified_at: int) -> int {
    -(depth * 10) - (if has_copy {
        50int
    } else {
        0int
    }) - div_toward_zero(modified_at, 1_000_000)
}

/// The score of a file entry.
pub open spec fn entry_score(f: FileEntry) -> int {
    score_of(depth(f.path@), copy_pattern(lowercase(f.name@)), f.modified_at as int)
}

/// The position of the last maximum among the first `k` scores.
pub open spec fn last_max_index(scores: Seq<int>, k: int) -> int
    decreases k,
{
    if k <= 1 {
        0
    } else {
        let m = last_max_index(scores, k - 1);
        if scores[k - 1] >= scores[m] {
            k - 1
        } else {
            m
        }
    }
}

/// The scores of a sequence of files.
pub open spec fn scores_of(files: Seq<FileEntry>) -> Seq<int> {
    files.map_values(|f: FileEntry| entry_score(f))
}

/// The position of the reference among `files`.
pub open spec fn reference_index(files: Seq<FileEntry>) -> int {
    last_max_index(scores_of(files), files.len() as int)
}

/// The last maximum is a maximum, beaten by nothing before it and matched by
/// nothing after it.
pub proof fn lemma_last_max_index(scores: Seq<int>, k: int)
    requires
        1 <= k <= scores.len(),
    ensures
        0 <= last_max_index(scores, k) < k,
        forall|j: int| 0 <= j < k ==> #[trigger] scores[j] <= scores[last_max_index(scores, k)],
        forall|j: int|
            last_max_index(scores, k) < j < k ==> #[trigger] scores[j] < scores[last_max_index(
                scores,
                k,
            )],
    decreases k,
{
    if k > 1 {
        lemma_last_max_index(scores, k - 1);
    }
}

/// Older files score higher, other things equal: for the same path depth and
/// copy-pattern flag, a file whose mtime in whole millions of seconds
/// (Rust's `/`, rounding toward zero) is earlier scores strictly higher, and
/// a file that is not newer never scores lower.
pub proof fn lemma_older_scores_higher(depth: int, has_copy: bool, a: i64, b: i64)
    ensures
        (if a >= 0 { a / 1_000_000 } else { -((-a) / 1_000_000) })
            < (if b >= 0 { b / 1_000_000 } else { -((-b) / 1_000_000) })
            ==> score_of(depth, has_copy, a as int) > score_of(depth, has_copy, b as int),
        a <= b ==> score_of(depth, has_copy, a as int) >= score_of(depth, has_copy, b as int),
{
    if a <= b {
        if a >= 0 {
            assert(a / 1_000_000 <= b / 1_000_000) by (nonlinear_arith)
                requires 0 <= a <= b;
        } else if b >= 0 {
            assert(-((-a) / 1_000_000) <= 0) by (nonlinear_arith)
                requires a < 0;
            assert(b / 1_000_000 >= 0) by (nonlinear_arith)
                requires b >= 0;
        } else {
            assert((-b) / 1_000_000 <= (-a) / 1_000_000) by (nonlinear_arith)
                requires 0 < -b <= -a;
        }
    }
}

/// Shallower paths and names without a copy pattern score higher, other
/// things equal: one path level costs ten points and a copy pattern fifty.
pub proof fn lemma_shallow_and_plain_score_higher(d1: int, d2: int, has_copy: bool, m: i64)
    ensures
        score_of(d1, has_copy, m as int) - score_of(d2, has_copy, m as int) == 10 * (d2 - d1),
        score_of(d1, false, m as int) == score_of(d1, true, m as int) + 50,
{
}

/// The reference is never newer, in whole millions of seconds, than another
/// file of the group at the same path depth with the same copy-pattern flag.
pub proof fn lemma_reference_is_oldest(files: Seq<FileEntry>, j: int)
    requires
        0 <= j < files.len(),
        depth(files[j].path@) == depth(files[reference_index(files)].path@),
        copy_pattern(lowercase(files[j].name@)) == copy_pattern(lowercase(files[reference_index(files)].name@)),
    ensures
        ({
            let r = files[reference_index(files)].modified_at;
            let m = files[j].modified_at;
            (if r >= 0 { r / 1_000_000 } else { -((-r) / 1_000_000) })
                <= (if m >= 0 { m / 1_000_000 } else { -((-m) / 1_000_000) })
        }),
{
    let sc = scores_of(files);
    lemma_last_max_index(sc, files.len() as int);
    let ri = reference_index(files);
    assert(sc[j] <= sc[ri]);
    let f = files[ri];
    let g = files[j];
    lemma_older_scores_higher(depth(f.path@), copy_pattern(lowercase(f.name@)), g.modified_at, f.modified_at);
}

/// The score of a file from its path depth, copy-pattern flag and mtime.
pub fn reference_score(depth: usize, has_copy: bool, modified_at: i64) -> (r: i128)
    ensures
        r == score_of(depth as int, has_copy, modified_at as int),
{
    let d: i128 = depth as i128;
    let penalty: i128 = if has_copy {
        50
    } else {
        0
    };
    let m: i128 = modified_at as i128;
    let age: i128 = if m >= 0 {
        let q: u128 = (m as u128) / 1_000_000u128;
        q as i128
    } else {
        let q: u128 = ((-m) as u128) / 1_000_000u128;
        -(q as i128)
    };
    -(d * 10) - penalty - age
}

/// The position of the last maximum of `scores`.
pub fn best_index(scores: &[i128]) -> (r: usize)
    requires
        scores.len() >= 1,
    ensures
        r == last_max_index(scores@.map_values(|s: i128| s as int), scores.len() as int),
{
    let ghost sc = scores@.map_values(|s: i128| s as int);
    let mut best: usize = 0;
    let mut i: usize = 1;
    while i < scores.len()
        invariant
            1 <= i <= scores.len(),
            sc == scores@.map_values(|s: i128| s as int),
            best == last_max_index(sc, i as int),
        decreases scores.len() - i,
    {
        proof {
            lemma_last_max_index(sc, i as int);
        }
        if scores[i] >= scores[best] {
            best = i;
        }
        i = i + 1;
    }
    best
}

/// Select the best reference from a group of files: the last file of highest
/// score, and the others in their original order.
pub fn select_reference(files: &[FileEntry]) -> (r: (FileEntry, Vec<FileEntry>))
    requires
        files.len() >= 1,
    ensures
        r.0 == files@[reference_index(files@)],
        r.1@ == files@.remove(reference_index(files@)),
{
    let n = files.len();
    let mut scores: Vec<i128> = Vec::new();
    let mut i: usize = 0;
    while i < n
        invariant
            n == files.len(),
            0 <= i <= n,
            scores@.len() == i,
            forall|k: int| 0 <= k < i ==> #[trigger] scores@[k] == entry_score(files@[k]),
        decreases n - i,
    {
        let f = &files[i];
        let s = reference_score(f.path_depth(), f.has_copy_pattern(), f.modified_at);
        scores.push(s);
        i = i + 1;
    }
    let b = best_index(&scores);
    proof {
        assert(scores@.map_values(|s: i128| s as int) =~= scores_of(files@));
        lemma_last_max_index(scores_of(files@), n as int);
    }
    let reference = files[b].clone();
    let mut duplicates: Vec<FileEntry> = Vec::new();
    let mut j: usize = 0;
    while j < n
        invariant
            n == files.len(),
            b < n,
            0 <= j <= n,
            duplicates@ == if j <= b {
                files@.subrange(0, j as int)
            } else {
                files@.subrange(0, b as int) + files@.subrange(b + 1, j as int)
            },
        decreases n - j,
    {
        if j != b {
            let f = files[j].clone();
            duplicates.push(f);
        }
        proof {
            if j < b {
                assert(files@.subrange(0, j + 1) =~= files@.subrange(0, j as int).push(files@[j as int]));
            } else if j > b {
                assert(files@.subrange(b + 1, j + 1) =~= files@.subrange(b + 1, j as int).push(files@[j as int]));
            } else {
                assert(files@.subrange(b + 1, j + 1) =~= Seq::<FileEntry>::empty());
            }
        }
        j = j + 1;
    }
    proof {
        assert(duplicates@ =~= files@.remove(b as int));
    }
    (reference, duplicates)
}

// ───────────────────────────── grouping ─────────────────────────────

/// A pairwise match: two file positions and how they matched.
pub type MatchPair = (usize, usize, MatchKind);

/// Representatives and ranks of `n` elements after uniting the first `k`
/// pairs in order.
pub open spec fn uf_after(n: nat, pairs: Seq<MatchPair>, k: int) -> (Seq<int>, Seq<int>)
    decreases k,
{
    if k <= 0 {
        (Seq::new(n, |i: int| i), Seq::new(n, |i: int| 0int))
    } else {
        let prev = uf_after(n, pairs, k - 1);
        let a = pairs[k - 1].0 as int;
        let b = pairs[k - 1].1 as int;
        (union_reps(prev.0, prev.1, a, b), union_ranks(prev.0, prev.1, a, b))
    }
}

/// The match kind recorded per representative after the first `k` pairs:
/// each pair records its kind under the representative of its first element
/// right after the union, unless one is recorded there already.
pub open spec fn kinds_after(n: nat, pairs: Seq<MatchPair>, k: int) -> Map<int, MatchKind>
    decreases k,
{
    if k <= 0 {
        Map::empty()
    } else {
        let m = kinds_after(n, pairs, k - 1);
        let r = uf_after(n, pairs, k).0[pairs[k - 1].0 as int];
        if m.dom().contains(r) {
            m
        } else {
            m.insert(r, pairs[k - 1].2)
        }
    }
}

/// The representative of every element once all pairs are united.
pub open spec fn final_reps(n: nat, pairs: Seq<MatchPair>) -> Seq<int> {
    uf_after(n, pairs, pairs.len() as int).0
}

/// The match kind of the group whose representative is `r`.
pub open spec fn group_kind(n: nat, pairs: Seq<MatchPair>, r: int) -> MatchKind {
    let m = kinds_after(n, pairs, pairs.len() as int);
    if m.dom().contains(r) {
        m[r]
    } else {
        MatchKind::Content
    }
}

/// The elements below `k` whose representative is `r`, in increasing order.
pub open spec fn members_below(reps: Seq<int>, r: int, k: int) -> Seq<usize>
    decreases k,
{
    if k <= 0 {
        Seq::empty()
    } else {
        members_below(reps, r, k - 1) + if reps[k - 1] == r {
            seq![(k - 1) as usize]
        } else {
            Seq::empty()
        }
    }
}

/// All elements whose representative is `r`, in increasing order.
pub open spec fn members_of(reps: Seq<int>, r: int) -> Seq<usize> {
    members_below(reps, r, reps.len() as int)
}

/// The representatives below `k` of sets with at least two elements, in
/// increasing order.
pub open spec fn group_roots_below(reps: Seq<int>, k: int) -> Seq<int>
    decreases k,
{
    if k <= 0 {
        Seq::empty()
    } else {
        group_roots_below(reps, k - 1) + if members_of(reps, k - 1).len() >= 2 {
            seq![k - 1]
        } else {
            Seq::empty()
        }
    }
}

/// The representatives of all sets with at least two elements.
pub open spec fn group_roots(reps: Seq<int>) -> Seq<int> {
    group_roots_below(reps, reps.len() as int)
}

/// The files at the given positions.
pub open spec fn member_files(files: Seq<FileEntry>, members: Seq<usize>) -> Seq<FileEntry> {
    members.map_values(|i: usize| files[i as int])
}

/// Sum of the sizes of `files`.
pub open spec fn total_size(files: Seq<FileEntry>) -> int
    decreases files.len(),
{
    if files.len() == 0 {
        0
    } else {
        total_size(files.drop_last()) + files.last().size
    }
}

/// The files of the set whose representative is `r`.
pub open spec fn group_files(files: Seq<FileEntry>, reps: Seq<int>, r: int) -> Seq<FileEntry> {
    member_files(files, members_of(reps, r))
}

/// The reference of the set whose representative is `r`.
pub open spec fn group_reference(files: Seq<FileEntry>, reps: Seq<int>, r: int) -> FileEntry {
    let g = group_files(files, reps, r);
    g[reference_index(g)]
}

/// The duplicates of the set whose representative is `r`.
pub open spec fn group_duplicates(files: Seq<FileEntry>, reps: Seq<int>, r: int) -> Seq<
    FileEntry,
> {
    let g = group_files(files, reps, r);
    g.remove(reference_index(g))
}

/// Every pair names two of the `n` files.
pub open spec fn pairs_in_range(n: int, pairs: Seq<MatchPair>) -> bool {
    forall|k: int| 0 <= k < pairs.len() ==> (#[trigger] pairs[k]).0 < n && pairs[k].1 < n
}

/// The wasted bytes of every group fit in a `u64`.
pub open spec fn wasted_fits(files: Seq<FileEntry>, pairs: Seq<MatchPair>) -> bool {
    let reps = final_reps(files.len(), pairs);
    forall|r: int|
        0 <= r < files.len() && #[trigger] members_of(reps, r).len() >= 2 ==> total_size(
            group_duplicates(files, reps, r),
        ) <= u64::MAX
}

/// The `j`-th group returned for `files` and `pairs` is the set of the `j`-th
/// group representative.
pub open spec fn is_group_of(
    g: DupeGroup,
    files: Seq<FileEntry>,
    pairs: Seq<MatchPair>,
    r: int,
) -> bool {
    let reps = final_reps(files.len(), pairs);
    &&& g.reference == group_reference(files, reps, r)
    &&& g.duplicates@ == group_duplicates(files, reps, r)
    &&& g.match_kind == group_kind(files.len(), pairs, r)
    &&& g.total_wasted_bytes == total_size(group_duplicates(files, reps, r))
}

/// Members below `k` are below `k` and named by their representative.
pub proof fn lemma_members_below(reps: Seq<int>, r: int, k: int)
    requires
        0 <= k <= reps.len(),
        reps.len() <= usize::MAX,
    ensures
        forall|j: int|
            0 <= j < members_below(reps, r, k).len() ==> #[trigger] members_below(reps, r, k)[j]
                < k && reps[members_below(reps, r, k)[j] as int] == r,
    decreases k,
{
    if k > 0 {
        lemma_members_below(reps, r, k - 1);
        let prev = members_below(reps, r, k - 1);
        let cur = members_below(reps, r, k);
        assert forall|j: int| 0 <= j < cur.len() implies #[trigger] cur[j] < k && reps[cur[j] as int]
            == r by {
            if j < prev.len() {
                assert(cur[j] == prev[j]);
            } else {
                assert(cur[j] == (k - 1) as usize);
            }
        }
    }
}

/// A prefix of a sequence of files weighs no more than the whole.
pub proof fn lemma_total_size_prefix(files: Seq<FileEntry>, t: int)
    requires
        0 <= t <= files.len(),
    ensures
        total_size(files.subrange(0, t)) <= total_size(files),
        t < files.len() ==> total_size(files.subrange(0, t + 1)) == total_size(
            files.subrange(0, t),
        ) + files[t].size,
    decreases files.len() - t,
{
    if t < files.len() {
        assert(files.subrange(0, t + 1).drop_last() =~= files.subrange(0, t));
        lemma_total_size_prefix(files, t + 1);
    } else {
        assert(files.subrange(0, t) =~= files);
    }
}

/// Sum of the sizes of `files`.
fn sum_sizes(files: &Vec<FileEntry>) -> (r: u64)
    requires
        total_size(files@) <= u64::MAX,
    ensures
        r == total_size(files@),
{
    let mut total: u64 = 0;
    let mut t: usize = 0;
    while t < files.len()
        invariant
            0 <= t <= files.len(),
            total_size(files@) <= u64::MAX,
            total == total_size(files@.subrange(0, t as int)),
        decreases files.len() - t,
    {
        proof {
            lemma_total_size_prefix(files@, t as int);
            lemma_total_size_prefix(files@, t + 1);
        }
        total = total + files[t].size;
        t = t + 1;
    }
    proof {
        assert(files@.subrange(0, t as int) =~= files@);
    }
    total
}

/// Group pairwise matches into transitive duplicate groups.
///
/// Uses union-find to merge: if A matches B and B matches C, then {A, B, C}
/// form one group. Selects a reference for each group. The groups come in the
/// order of their representatives.
pub fn group_matches(files: &[FileEntry], pairs: Vec<MatchPair>) -> (r: Vec<DupeGroup>)
    requires
        pairs_in_range(files.len() as int, pairs@),
        wasted_fits(files@, pairs@),
    ensures
        r.len() == group_roots(final_reps(files@.len(), pairs@)).len(),
        forall|j: int|
            0 <= j < r.len() ==> is_group_of(
                #[trigger] r@[j],
                files@,
                pairs@,
                group_roots(final_reps(files@.len(), pairs@))[j],
            ),
{
    let n = files.len();
    let ghost nn = n as nat;
    let mut uf = UnionFind::new(n);
    let mut kinds: Vec<Option<MatchKind>> = Vec::new();
    let mut i: usize = 0;
    while i < n
        invariant
            0 <= i <= n,
            kinds@.len() == i,
            forall|q: int| 0 <= q < i ==> (#[trigger] kinds@[q]) is None,
        decreases n - i,
    {
        kinds.push(None);
        i = i + 1;
    }
    proof {
        uf.lemma_reps();
        assert(uf.reps() =~= uf_after(nn, pairs@, 0).0);
        assert(uf.ranks() =~= uf_after(nn, pairs@, 0).1);
    }
    let mut k: usize = 0;
    while k < pairs.len()
        invariant
            n == files.len(),
            nn == n,
            0 <= k <= pairs.len(),
            pairs_in_range(n as int, pairs@),
            uf.wf(),
            uf.size() == n,
            uf.reps() == uf_after(nn, pairs@, k as int).0,
            uf.ranks() == uf_after(nn, pairs@, k as int).1,
            kinds@.len() == n,
            forall|q: int|
                0 <= q < n ==> #[trigger] kinds@[q] == if kinds_after(
                    nn,
                    pairs@,
                    k as int,
                ).dom().contains(q) {
                    Some(kinds_after(nn, pairs@, k as int)[q])
                } else {
                    None
                },
        decreases pairs.len() - k,
    {
        let (a, b, kind) = pairs[k];
        assert(pairs@[k as int].0 < n && pairs@[k as int].1 < n);
        uf.union(a, b);
        let root = uf.find(a);
        proof {
            uf.lemma_reps();
        }
        match kinds[root] {
            Some(_) => {},
            None => {
                kinds.set(root, Some(kind));
            },
        }
        proof {
            let m = kinds_after(nn, pairs@, k + 1);
            assert forall|q: int| 0 <= q < n implies #[trigger] kinds@[q] == if m.dom().contains(
                q,
            ) {
                Some(m[q])
            } else {
                None
            } by {}
        }
        k = k + 1;
    }
    let ghost reps = final_reps(nn, pairs@);
    proof {
        uf.lemma_reps();
    }
    let mut rep_of: Vec<usize> = Vec::new();
    let mut i: usize = 0;
    while i < n
        invariant
            0 <= i <= n,
            uf.wf(),
            uf.size() == n,
            uf.reps() == reps,
            reps.len() == n,
            forall|q: int| 0 <= q < n ==> 0 <= #[trigger] reps[q] < n,
            rep_of@.len() == i,
            forall|q: int| 0 <= q < i ==> #[trigger] rep_of@[q] == reps[q],
        decreases n - i,
    {
        let r = uf.find(i);
        rep_of.push(r);
        i = i + 1;
    }
    let mut buckets: Vec<Vec<usize>> = Vec::new();
    let mut i: usize = 0;
    while i < n
        invariant
            0 <= i <= n,
            buckets@.len() == i,
            forall|q: int| 0 <= q < i ==> (#[trigger] buckets@[q])@ == Seq::<usize>::empty(),
        decreases n - i,
    {
        buckets.push(Vec::new());
        i = i + 1;
    }
    let mut i: usize = 0;
    while i < n
        invariant
            0 <= i <= n,
            reps.len() == n,
            forall|q: int| 0 <= q < n ==> 0 <= #[trigger] reps[q] < n,
            rep_of@.len() == n,
            forall|q: int| 0 <= q < n ==> #[trigger] rep_of@[q] == reps[q],
            buckets@.len() == n,
            forall|q: int| 0 <= q < n ==> (#[trigger] buckets@[q])@ == members_below(reps, q, i as int),
        decreases n - i,
    {
        let r = rep_of[i];
        assert(rep_of@[i as int] == reps[i as int]);
        buckets[r].push(i);
        proof {
            assert forall|q: int| 0 <= q < n implies (#[trigger] buckets@[q])@ == members_below(
                reps,
                q,
                i + 1,
            ) by {
                if q != r {
                    assert(members_below(reps, q, i + 1) =~= members_below(reps, q, i as int));
                }
            }
        }
        i = i + 1;
    }
    let mut groups: Vec<DupeGroup> = Vec::new();
    let mut r: usize = 0;
    while r < n
        invariant
            n == files.len(),
            nn == n,
            reps == final_reps(nn, pairs@),
            reps.len() == n,
            0 <= r <= n,
            wasted_fits(files@, pairs@),
            buckets@.len() == n,
            forall|q: int| 0 <= q < n ==> (#[trigger] buckets@[q])@ == members_of(reps, q),
            kinds@.len() == n,
            forall|q: int|
                0 <= q < n ==> #[trigger] kinds@[q] == if kinds_after(
                    nn,
                    pairs@,
                    pairs@.len() as int,
                ).dom().contains(q) {
                    Some(kinds_after(nn, pairs@, pairs@.len() as int)[q])
                } else {
                    None
                },
            groups@.len() == group_roots_below(reps, r as int).len(),
            forall|j: int|
                0 <= j < groups@.len() ==> is_group_of(
                    #[trigger] groups@[j],
                    files@,
                    pairs@,
                    group_roots_below(reps, r as int)[j],
                ),
        decreases n - r,
    {
        let members = &buckets[r];
        if members.len() >= 2 {
            proof {
                lemma_members_below(reps, r as int, n as int);
            }
            let mut gf: Vec<FileEntry> = Vec::new();
            let mut t: usize = 0;
            while t < members.len()
                invariant
                    n == files.len(),
                    members@ == members_of(reps, r as int),
                    reps.len() == n,
                    forall|j: int|
                        0 <= j < members@.len() ==> #[trigger] members@[j] < n,
                    0 <= t <= members.len(),
                    gf@ == member_files(files@, members@.subrange(0, t as int)),
                decreases members.len() - t,
            {
                let m = members[t];
                let f = files[m].clone();
                gf.push(f);
                proof {
                    assert(member_files(files@, members@.subrange(0, t + 1)) =~= member_files(
                        files@,
                        members@.subrange(0, t as int),
                    ).push(files@[m as int]));
                }
                t = t + 1;
            }
            proof {
                assert(members@.subrange(0, t as int) =~= members@);
            }
            let (reference, duplicates) = select_reference(&gf);
            let total = sum_sizes(&duplicates);
            let match_kind = match kinds[r] {
                Some(kd) => kd,
                None => MatchKind::Content,
            };
            let g = DupeGroup { reference, duplicates, match_kind, total_wasted_bytes: total };
            groups.push(g);
        }
        proof {
            let before = group_roots_below(reps, r as int);
            let after = group_roots_below(reps, r + 1);
            assert forall|j: int| 0 <= j < groups@.len() implies is_group_of(
                #[trigger] groups@[j],
                files@,
                pairs@,
                after[j],
            ) by {
                if j < before.len() {
                    assert(after[j] == before[j]);
                }
            }
        }
        r = r + 1;
    }
    groups
}

// ───────────────────────────── laws ─────────────────────────────

/// After a union, two elements share a set exactly when they shared one
/// before, or each was in one of the two sets that were united; in particular
/// the two united elements share a set.
pub proof fn lemma_union_merges(reps: Seq<int>, ranks: Seq<int>, x: int, y: int, i: int, j: int)
    requires
        0 <= x < reps.len(),
        0 <= y < reps.len(),
        0 <= i < reps.len(),
        0 <= j < reps.len(),
    ensures
        union_reps(reps, ranks, x, y).len() == reps.len(),
        union_reps(reps, ranks, x, y)[x] == union_reps(reps, ranks, x, y)[y],
        (union_reps(reps, ranks, x, y)[i] == union_reps(reps, ranks, x, y)[j]) <==> (reps[i]
            == reps[j] || ((reps[i] == reps[x] || reps[i] == reps[y]) && (reps[j] == reps[x]
            || reps[j] == reps[y]))),
{
}

/// Pair `p` joins files `a` and `b` (either way round).
pub open spec fn pair_joins(p: MatchPair, a: int, b: int) -> bool {
    (p.0 == a && p.1 == b) || (p.0 == b && p.1 == a)
}

/// One of the first `k` pairs joins `a` and `b`.
pub open spec fn linked(pairs: Seq<MatchPair>, k: int, a: int, b: int) -> bool {
    exists|t: int| 0 <= t < k && #[trigger] pair_joins(pairs[t], a, b)
}

/// `w` walks from file to file, each step along one of the first `k` pairs.
pub open spec fn is_walk(pairs: Seq<MatchPair>, k: int, w: Seq<int>) -> bool
    decreases w.len(),
{
    if w.len() <= 1 {
        w.len() == 1
    } else {
        is_walk(pairs, k, w.drop_last()) && linked(pairs, k, w[w.len() - 2], w.last())
    }
}

/// Files `i` and `j` are connected by the first `k` pairs: some walk leads
/// from one to the other.
pub open spec fn connected(pairs: Seq<MatchPair>, k: int, i: int, j: int) -> bool {
    exists|w: Seq<int>| #[trigger] is_walk(pairs, k, w) && w[0] == i && w.last() == j
}

proof fn lemma_walk_more_pairs(pairs: Seq<MatchPair>, k1: int, k2: int, w: Seq<int>)
    requires
        is_walk(pairs, k1, w),
        k1 <= k2,
    ensures
        is_walk(pairs, k2, w),
    decreases w.len(),
{
    if w.len() > 1 {
        lemma_walk_more_pairs(pairs, k1, k2, w.drop_last());
        let t = choose|t: int| 0 <= t < k1 && #[trigger] pair_joins(pairs[t], w[w.len() - 2], w.last());
        assert(pair_joins(pairs[t], w[w.len() - 2], w.last()));
    }
}

proof fn lemma_walk_first(pairs: Seq<MatchPair>, k: int, w: Seq<int>)
    requires
        is_walk(pairs, k, w),
    ensures
        w.len() >= 1,
        w.len() > 1 ==> w.drop_last()[0] == w[0],
    decreases w.len(),
{
}

/// Walks join end to start.
proof fn lemma_walk_concat(pairs: Seq<MatchPair>, k: int, w1: Seq<int>, w2: Seq<int>)
    requires
        is_walk(pairs, k, w1),
        is_walk(pairs, k, w2),
        w1.last() == w2[0],
    ensures
        is_walk(pairs, k, w1 + w2.drop_first()),
        (w1 + w2.drop_first())[0] == w1[0],
        (w1 + w2.drop_first()).last() == w2.last(),
    decreases w2.len(),
{
    lemma_walk_first(pairs, k, w1);
    lemma_walk_first(pairs, k, w2);
    if w2.len() == 1 {
        assert(w1 + w2.drop_first() =~= w1);
    } else {
        lemma_walk_concat(pairs, k, w1, w2.drop_last());
        let c = w1 + w2.drop_first();
        assert(c.drop_last() =~= w1 + w2.drop_last().drop_first());
        assert(c[c.len() - 2] == w2[w2.len() - 2]);
    }
}

/// Along a walk the representative stays the same.
proof fn lemma_walk_same_rep(n: nat, pairs: Seq<MatchPair>, k: int, w: Seq<int>)
    requires
        0 <= k <= pairs.len(),
        pairs_in_range(n as int, pairs),
        is_walk(pairs, k, w),
        0 <= w[0] < n,
    ensures
        0 <= w.last() < n,
        uf_after(n, pairs, k).0[w[0]] == uf_after(n, pairs, k).0[w.last()],
    decreases w.len(),
{
    lemma_walk_first(pairs, k, w);
    if w.len() > 1 {
        lemma_walk_same_rep(n, pairs, k, w.drop_last());
        lemma_pairs_grouped(n, pairs, k);
        let t = choose|t: int| 0 <= t < k && #[trigger] pair_joins(pairs[t], w[w.len() - 2], w.last());
        assert(pairs[t].0 < n && pairs[t].1 < n);
        assert(uf_after(n, pairs, k).0[pairs[t].0 as int] == uf_after(n, pairs, k).0[pairs[t].1 as int]);
    }
}

/// The sets of the union-find are the connected components of the pairs:
/// after the first `k` pairs, two files share a representative exactly when
/// a walk along those pairs leads from one to the other.
pub proof fn lemma_classes_are_components(n: nat, pairs: Seq<MatchPair>, k: int, i: int, j: int)
    requires
        0 <= k <= pairs.len(),
        pairs_in_range(n as int, pairs),
        0 <= i < n,
        0 <= j < n,
    ensures
        (uf_after(n, pairs, k).0[i] == uf_after(n, pairs, k).0[j]) <==> connected(pairs, k, i, j),
    decreases k,
{
    if connected(pairs, k, i, j) {
        let w = choose|w: Seq<int>| #[trigger] is_walk(pairs, k, w) && w[0] == i && w.last() == j;
        lemma_walk_same_rep(n, pairs, k, w);
    }
    let reps = uf_after(n, pairs, k).0;
    if reps[i] == reps[j] {
        if k == 0 {
            assert(is_walk(pairs, k, seq![i]));
        } else {
            let prev = uf_after(n, pairs, k - 1);
            let x = pairs[k - 1].0 as int;
            let y = pairs[k - 1].1 as int;
            assert(pairs[k - 1].0 < n && pairs[k - 1].1 < n);
            lemma_uf_after_len(n, pairs, k - 1);
            lemma_union_merges(prev.0, prev.1, x, y, i, j);
            if prev.0[i] == prev.0[j] {
                lemma_classes_are_components(n, pairs, k - 1, i, j);
                let w = choose|w: Seq<int>| #[trigger] is_walk(pairs, k - 1, w) && w[0] == i && w.last() == j;
                lemma_walk_more_pairs(pairs, k - 1, k, w);
            } else {
                let a = if prev.0[i] == prev.0[x] { x } else { y };
                let b = if prev.0[j] == prev.0[x] { x } else { y };
                lemma_classes_are_components(n, pairs, k - 1, i, a);
                lemma_classes_are_components(n, pairs, k - 1, b, j);
                let w1 = choose|w: Seq<int>| #[trigger] is_walk(pairs, k - 1, w) && w[0] == i && w.last() == a;
                let w2 = choose|w: Seq<int>| #[trigger] is_walk(pairs, k - 1, w) && w[0] == b && w.last() == j;
                lemma_walk_more_pairs(pairs, k - 1, k, w1);
                lemma_walk_more_pairs(pairs, k - 1, k, w2);
                lemma_walk_first(pairs, k, w1);
                if a == b {
                    lemma_walk_concat(pairs, k, w1, w2);
                } else {
                    assert(pair_joins(pairs[k - 1], a, b));
                    let w1b = w1.push(b);
                    assert(w1b.drop_last() =~= w1);
                    assert(is_walk(pairs, k, w1b));
                    lemma_walk_concat(pairs, k, w1b, w2);
                }
            }
        }
    }
}

/// Uniting an element with itself changes nothing.
pub proof fn lemma_union_self(reps: Seq<int>, ranks: Seq<int>, x: int)
    requires
        0 <= x < reps.len(),
    ensures
        union_reps(reps, ranks, x, x) == reps,
        union_ranks(reps, ranks, x, x) == ranks,
{
}

/// The representatives after any number of unions cover all `n` elements.
pub proof fn lemma_uf_after_len(n: nat, pairs: Seq<MatchPair>, k: int)
    requires
        k <= pairs.len(),
        pairs_in_range(n as int, pairs),
    ensures
        uf_after(n, pairs, k).0.len() == n,
    decreases k,
{
    if k > 0 {
        lemma_uf_after_len(n, pairs, k - 1);
        assert(pairs[k - 1].0 < n && pairs[k - 1].1 < n);
    }
}

/// Every matched pair ends up in one set: after the first `k` pairs are
/// united, the two files of each of them share a representative.
pub proof fn lemma_pairs_grouped(n: nat, pairs: Seq<MatchPair>, k: int)
    requires
        0 <= k <= pairs.len(),
        pairs_in_range(n as int, pairs),
    ensures
        forall|j: int|
            0 <= j < k ==> uf_after(n, pairs, k).0[(#[trigger] pairs[j]).0 as int] == uf_after(
                n,
                pairs,
                k,
            ).0[pairs[j].1 as int],
    decreases k,
{
    if k > 0 {
        lemma_pairs_grouped(n, pairs, k - 1);
        lemma_uf_after_len(n, pairs, k - 1);
        let prev = uf_after(n, pairs, k - 1);
        let x = pairs[k - 1].0 as int;
        let y = pairs[k - 1].1 as int;
        assert(pairs[k - 1].0 < n && pairs[k - 1].1 < n);
        assert forall|j: int| 0 <= j < k implies uf_after(n, pairs, k).0[(#[trigger] pairs[j]).0 as int]
            == uf_after(n, pairs, k).0[pairs[j].1 as int] by {
            assert(pairs[j].0 < n && pairs[j].1 < n);
            lemma_union_merges(prev.0, prev.1, x, y, pairs[j].0 as int, pairs[j].1 as int);
        }
    }
}

/// Every returned group is its set's files: the reference and the duplicates
/// together are the files of the set, one fewer duplicate than files.
pub proof fn lemma_group_split(files: Seq<FileEntry>, reps: Seq<int>, r: int)
    requires
        members_of(reps, r).len() >= 1,
    ensures
        group_duplicates(files, reps, r).len() + 1 == members_of(reps, r).len(),
        group_duplicates(files, reps, r).insert(
            reference_index(group_files(files, reps, r)),
            group_reference(files, reps, r),
        ) == group_files(files, reps, r),
{
    let g = group_files(files, reps, r);
    lemma_last_max_index(scores_of(g), g.len() as int);
    let b = reference_index(g);
    assert(g.remove(b).insert(b, g[b]) =~= g);
}

} // verus!
