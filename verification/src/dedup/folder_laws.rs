//! The folder hash depends on a directory's content, not on its path or on
//! the order in which its files were listed.
//!
//! A directory's hash input sorts its (name, size) pairs and its
//! subdirectories' hashes; sorting by a total order gives one result for all
//! orderings of the same items, so directories holding the same items hash
//! alike.

use vstd::prelude::*;
use crate::dedup::folder_dedup::{
    bytes_le, child_files, child_hashes, child_names, insert_hash, insert_pair, merkle,
    merkle_preimage, pair_le, sort_hashes, sort_pairs,
};
use crate::dedup::file_entry::FileEntry;
use crate::text::{lex_le, lemma_lex_antisym, lemma_lex_total, lemma_lex_trans};

verus! {

broadcast use {vstd::seq_lib::group_to_multiset_ensures, vstd::multiset::group_multiset_axioms};

/// `le` is a total order: total, antisymmetric and transitive.
pub open spec fn total_order<A>(le: spec_fn(A, A) -> bool) -> bool {
    &&& forall|a: A, b: A| #[trigger] le(a, b) || le(b, a)
    &&& forall|a: A, b: A| #[trigger] le(a, b) && le(b, a) ==> a == b
    &&& forall|a: A, b: A, c: A| #[trigger] le(a, b) && #[trigger] le(b, c) ==> le(a, c)
}

/// `s` is in increasing order by `le`.
pub open spec fn sorted_by<A>(s: Seq<A>, le: spec_fn(A, A) -> bool) -> bool {
    forall|i: int, j: int| 0 <= i < j < s.len() ==> le(#[trigger] s[i], #[trigger] s[j])
}

/// `x` put before the first element of `s` it does not exceed.
pub open spec fn insert_by<A>(x: A, s: Seq<A>, le: spec_fn(A, A) -> bool) -> Seq<A>
    decreases s.len(),
{
    if s.len() == 0 {
        seq![x]
    } else if le(x, s[0]) {
        seq![x] + s
    } else {
        seq![s[0]] + insert_by(x, s.drop_first(), le)
    }
}

/// Insertion sort by `le`.
pub open spec fn sort_by<A>(s: Seq<A>, le: spec_fn(A, A) -> bool) -> Seq<A>
    decreases s.len(),
{
    if s.len() == 0 {
        seq![]
    } else {
        insert_by(s.last(), sort_by(s.drop_last(), le), le)
    }
}

/// Inserting into a sorted sequence keeps it sorted and adds the item.
proof fn lemma_insert_by<A>(x: A, s: Seq<A>, le: spec_fn(A, A) -> bool)
    requires
        total_order(le),
        sorted_by(s, le),
    ensures
        sorted_by(insert_by(x, s, le), le),
        insert_by(x, s, le).to_multiset() == s.to_multiset().insert(x),
        insert_by(x, s, le).len() == s.len() + 1,
        insert_by(x, s, le)[0] == x || (s.len() > 0 && insert_by(x, s, le)[0] == s[0]),
    decreases s.len(),
{
    let r = insert_by(x, s, le);
    if s.len() == 0 {
        assert(r =~= Seq::<A>::empty().push(x));
    } else if le(x, s[0]) {
        assert(r =~= s.insert(0, x));
        assert forall|i: int, j: int| 0 <= i < j < r.len() implies le(#[trigger] r[i], #[trigger] r[j]) by {
            if i == 0 {
                if j > 1 {
                    assert(le(s[0], s[j - 1]));
                }
            } else {
                assert(le(s[i - 1], s[j - 1]));
            }
        }
    } else {
        let rest = s.drop_first();
        assert(sorted_by(rest, le)) by {
            assert forall|i: int, j: int| 0 <= i < j < rest.len() implies le(#[trigger] rest[i], #[trigger] rest[j]) by {
                assert(le(s[i + 1], s[j + 1]));
            }
        }
        lemma_insert_by(x, rest, le);
        let t = insert_by(x, rest, le);
        assert(r =~= t.insert(0, s[0]));
        assert(s =~= rest.insert(0, s[0]));
        assert(le(s[0], x));
        assert forall|i: int, j: int| 0 <= i < j < r.len() implies le(#[trigger] r[i], #[trigger] r[j]) by {
            if i == 0 {
                // r[j] is x or an element of rest, all at least s[0].
                let y = t[j - 1];
                assert(t.to_multiset().count(y) > 0);
                assert(rest.to_multiset().insert(x).count(y) > 0);
                if y != x {
                    assert(rest.to_multiset().count(y) > 0);
                    assert(rest.contains(y));
                    let k = choose|k: int| 0 <= k < rest.len() && rest[k] == y;
                    assert(le(s[0], s[k + 1]));
                }
            } else {
                assert(le(t[i - 1], t[j - 1]));
            }
        }
        assert(r.to_multiset() =~= s.to_multiset().insert(x));
    }
}

/// Sorting gives a sorted sequence with the same items.
proof fn lemma_sort_by<A>(s: Seq<A>, le: spec_fn(A, A) -> bool)
    requires
        total_order(le),
    ensures
        sorted_by(sort_by(s, le), le),
        sort_by(s, le).to_multiset() == s.to_multiset(),
    decreases s.len(),
{
    if s.len() == 0 {
        assert(s =~= Seq::<A>::empty());
    } else {
        lemma_sort_by(s.drop_last(), le);
        lemma_insert_by(s.last(), sort_by(s.drop_last(), le), le);
        assert(s =~= s.drop_last().push(s.last()));
    }
}

/// Two sorted sequences with the same items are equal.
proof fn lemma_sorted_unique<A>(a: Seq<A>, b: Seq<A>, le: spec_fn(A, A) -> bool)
    requires
        total_order(le),
        sorted_by(a, le),
        sorted_by(b, le),
        a.to_multiset() == b.to_multiset(),
    ensures
        a == b,
    decreases a.len(),
{
    if a.len() == 0 {
        assert(b.to_multiset().len() == 0);
        assert(b =~= a);
    } else {
        assert(a.to_multiset().len() == a.len());
        assert(b.to_multiset().len() == b.len());
        assert(b.len() == a.len());
        assert(a.to_multiset().count(b[0]) > 0);
        assert(a.contains(b[0]));
        assert(b.to_multiset().count(a[0]) > 0);
        assert(b.contains(a[0]));
        let i = choose|i: int| 0 <= i < a.len() && a[i] == b[0];
        let j = choose|j: int| 0 <= j < b.len() && b[j] == a[0];
        if i > 0 {
            assert(le(a[0], a[i]));
        }
        if j > 0 {
            assert(le(b[0], b[j]));
        }
        assert(le(a[0], b[0]) && le(b[0], a[0]));
        assert(a[0] == b[0]);
        let ra = a.drop_first();
        let rb = b.drop_first();
        assert(ra =~= a.remove(0));
        assert(rb =~= b.remove(0));
        assert(ra.to_multiset() == rb.to_multiset());
        assert(sorted_by(ra, le)) by {
            assert forall|x: int, y: int| 0 <= x < y < ra.len() implies le(#[trigger] ra[x], #[trigger] ra[y]) by {
                assert(le(a[x + 1], a[y + 1]));
            }
        }
        assert(sorted_by(rb, le)) by {
            assert forall|x: int, y: int| 0 <= x < y < rb.len() implies le(#[trigger] rb[x], #[trigger] rb[y]) by {
                assert(le(b[x + 1], b[y + 1]));
            }
        }
        lemma_sorted_unique(ra, rb, le);
        assert forall|k: int| 0 <= k < a.len() implies a[k] == b[k] by {
            if k > 0 {
                assert(a[k] == ra[k - 1] && b[k] == rb[k - 1]);
            }
        }
        assert(a =~= b);
    }
}

/// The order of (name, size) pairs.
pub open spec fn pair_order() -> spec_fn((Seq<char>, u64), (Seq<char>, u64)) -> bool {
    |a: (Seq<char>, u64), b: (Seq<char>, u64)| pair_le(a, b)
}

/// The order of hashes.
pub open spec fn hash_order() -> spec_fn(Seq<u8>, Seq<u8>) -> bool {
    |a: Seq<u8>, b: Seq<u8>| bytes_le(a, b)
}

/// Any two byte strings are ordered one way or the other.
proof fn lemma_bytes_total(a: Seq<u8>, b: Seq<u8>)
    ensures
        bytes_le(a, b) || bytes_le(b, a),
    decreases a.len(),
{
    if a.len() > 0 && b.len() > 0 && a[0] == b[0] {
        lemma_bytes_total(a.drop_first(), b.drop_first());
    }
}

/// The byte order is antisymmetric.
proof fn lemma_bytes_antisym(a: Seq<u8>, b: Seq<u8>)
    requires
        bytes_le(a, b),
        bytes_le(b, a),
    ensures
        a == b,
    decreases a.len(),
{
    if a.len() > 0 && b.len() > 0 {
        lemma_bytes_antisym(a.drop_first(), b.drop_first());
        assert(a =~= seq![a[0]] + a.drop_first());
        assert(b =~= seq![b[0]] + b.drop_first());
    }
}

/// The byte order is transitive.
proof fn lemma_bytes_trans(a: Seq<u8>, b: Seq<u8>, c: Seq<u8>)
    requires
        bytes_le(a, b),
        bytes_le(b, c),
    ensures
        bytes_le(a, c),
    decreases a.len(),
{
    if a.len() > 0 && b.len() > 0 && c.len() > 0 && a[0] == b[0] && b[0] == c[0] {
        lemma_bytes_trans(a.drop_first(), b.drop_first(), c.drop_first());
    }
}

/// Hashes are totally ordered.
proof fn lemma_hash_order()
    ensures
        total_order(hash_order()),
{
    let le = hash_order();
    assert forall|a: Seq<u8>, b: Seq<u8>| #[trigger] le(a, b) || le(b, a) by {
        lemma_bytes_total(a, b);
    }
    assert forall|a: Seq<u8>, b: Seq<u8>| #[trigger] le(a, b) && le(b, a) implies a == b by {
        lemma_bytes_antisym(a, b);
    }
    assert forall|a: Seq<u8>, b: Seq<u8>, c: Seq<u8>| #[trigger] le(a, b) && #[trigger] le(b, c) implies le(a, c) by {
        lemma_bytes_trans(a, b, c);
    }
}

/// (name, size) pairs are totally ordered.
proof fn lemma_pair_order()
    ensures
        total_order(pair_order()),
{
    let le = pair_order();
    assert forall|a: (Seq<char>, u64), b: (Seq<char>, u64)| #[trigger] le(a, b) || le(b, a) by {
        lemma_lex_total(a.0, b.0);
    }
    assert forall|a: (Seq<char>, u64), b: (Seq<char>, u64)| #[trigger] le(a, b) && le(b, a) implies a == b by {
        if a.0 != b.0 {
            lemma_lex_antisym(a.0, b.0);
        }
    }
    assert forall|a: (Seq<char>, u64), b: (Seq<char>, u64), c: (Seq<char>, u64)| #[trigger] le(a, b) && #[trigger] le(b, c) implies le(a, c) by {
        if a.0 != b.0 && b.0 != c.0 {
            lemma_lex_trans(a.0, b.0, c.0);
            if a.0 == c.0 {
                lemma_lex_antisym(a.0, b.0);
            }
        }
    }
}

/// The library's pair insertion is insertion by the pair order.
proof fn lemma_insert_pair_is(x: (Seq<char>, u64), s: Seq<(Seq<char>, u64)>)
    ensures
        insert_pair(x, s) == insert_by(x, s, pair_order()),
    decreases s.len(),
{
    if s.len() > 0 {
        lemma_insert_pair_is(x, s.drop_first());
    }
}

/// The library's pair sort is sorting by the pair order.
proof fn lemma_sort_pairs_is(s: Seq<(Seq<char>, u64)>)
    ensures
        sort_pairs(s) == sort_by(s, pair_order()),
    decreases s.len(),
{
    if s.len() > 0 {
        lemma_sort_pairs_is(s.drop_last());
        lemma_insert_pair_is(s.last(), sort_pairs(s.drop_last()));
    }
}

/// The library's hash insertion is insertion by the hash order.
proof fn lemma_insert_hash_is(x: Seq<u8>, s: Seq<Seq<u8>>)
    ensures
        insert_hash(x, s) == insert_by(x, s, hash_order()),
    decreases s.len(),
{
    if s.len() > 0 {
        lemma_insert_hash_is(x, s.drop_first());
    }
}

/// The library's hash sort is sorting by the hash order.
proof fn lemma_sort_hashes_is(s: Seq<Seq<u8>>)
    ensures
        sort_hashes(s) == sort_by(s, hash_order()),
    decreases s.len(),
{
    if s.len() > 0 {
        lemma_sort_hashes_is(s.drop_last());
        lemma_insert_hash_is(s.last(), sort_hashes(s.drop_last()));
    }
}

/// Order does not matter: two lists of the same (name, size) pairs and of
/// the same subdirectory hashes, each in any order, give the same hash
/// input.
pub proof fn lemma_preimage_ignores_order(
    files1: Seq<(Seq<char>, u64)>,
    files2: Seq<(Seq<char>, u64)>,
    hashes1: Seq<Seq<u8>>,
    hashes2: Seq<Seq<u8>>,
)
    requires
        files1.to_multiset() == files2.to_multiset(),
        hashes1.to_multiset() == hashes2.to_multiset(),
    ensures
        merkle_preimage(files1, hashes1) == merkle_preimage(files2, hashes2),
{
    lemma_pair_order();
    lemma_hash_order();
    lemma_sort_pairs_is(files1);
    lemma_sort_pairs_is(files2);
    lemma_sort_hashes_is(hashes1);
    lemma_sort_hashes_is(hashes2);
    lemma_sort_by(files1, pair_order());
    lemma_sort_by(files2, pair_order());
    lemma_sort_by(hashes1, hash_order());
    lemma_sort_by(hashes2, hash_order());
    lemma_sorted_unique(sort_by(files1, pair_order()), sort_by(files2, pair_order()), pair_order());
    lemma_sorted_unique(sort_by(hashes1, hash_order()), sort_by(hashes2, hash_order()), hash_order());
}

/// Content, not path: two directories holding the same files (by name and
/// size) and subdirectories with the same hashes, whatever their paths and
/// whatever order the files were listed in, get the same Merkle hash.
pub proof fn lemma_same_content_same_hash(files: Seq<FileEntry>, d1: (bool, Seq<Seq<char>>), d2: (bool, Seq<Seq<char>>))
    requires
        child_files(files, d1).to_multiset() == child_files(files, d2).to_multiset(),
        child_hashes(files, d1, child_names(files, d1).len() as int).to_multiset() == child_hashes(
            files,
            d2,
            child_names(files, d2).len() as int,
        ).to_multiset(),
    ensures
        merkle(files, d1) == merkle(files, d2),
{
    lemma_preimage_ignores_order(
        child_files(files, d1),
        child_files(files, d2),
        child_hashes(files, d1, child_names(files, d1).len() as int),
        child_hashes(files, d2, child_names(files, d2).len() as int),
    );
}

} // verus!
