//! Duplicate folder detection via bottom-up Merkle hashing.
//!
//! Every directory gets a content hash combining its files (names and sizes)
//! and its subdirectories' hashes; directories with equal hashes hold the same
//! tree of files and are reported together. This catches bulk copies such as
//! `project/` and `project-backup/`.
//!
//! Directories are keyed by whether their path is rooted and by their
//! components; a reported directory is written with `/` between components.

use vstd::prelude::*;
use crate::dedup::file_entry::FileEntry;
use crate::hashing::{blake3_digest, blake3_hash};
use crate::path::{components, is_rooted, is_separator, path_components};
use crate::text::{chars_of, eq_chars, lex_le, lex_le_chars, lemma_lex_total, lemma_lex_trans, lemma_lex_antisym, slice_range};

verus! {

broadcast use vstd::string::group_string_axioms;

/// A group of directories with identical content.
#[derive(Debug, Clone)]
pub struct DupeFolderGroup {
    /// Directories in this group (all have identical content trees).
    pub directories: Vec<String>,
    /// Number of files inside each directory (recursive).
    pub file_count: usize,
    /// Total size of files inside each directory (recursive).
    pub total_size: u64,
    /// The Merkle root hash of the directory content.
    pub merkle_hash: [u8; 32],
}

/// Configuration for folder dedup scanning.
#[derive(Debug, Clone)]
pub struct FolderDedupConfig {
    /// Minimum number of files a directory must contain to be considered.
    pub min_children: usize,
    /// Minimum total size (bytes) for a directory to be considered.
    pub min_total_size: u64,
}

impl Default for FolderDedupConfig {
    fn default() -> (r: Self)
        ensures
            r.min_children == 2,
            r.min_total_size == 0,
    {
        FolderDedupConfig { min_children: 2, min_total_size: 0 }
    }
}

// ───────────────────────────── the model ─────────────────────────────

/// The directory holding a file: the path's rootedness and its components
/// but the last. A path without components has none.
pub open spec fn parent_key(p: Seq<char>) -> Option<(bool, Seq<Seq<char>>)> {
    let c = components(p);
    if c.len() == 0 {
        None
    } else {
        Some((is_rooted(p), c.drop_last()))
    }
}

/// Directory `p` lies in directory `d` (or is it).
pub open spec fn extends(p: (bool, Seq<Seq<char>>), d: (bool, Seq<Seq<char>>)) -> bool {
    &&& p.0 == d.0
    &&& d.1.len() <= p.1.len()
    &&& p.1.take(d.1.len() as int) == d.1
}

/// File `f` lies somewhere inside directory `d`.
pub open spec fn file_under(f: FileEntry, d: (bool, Seq<Seq<char>>)) -> bool {
    match parent_key(f.path@) {
        Some(p) => extends(p, d),
        None => false,
    }
}

/// `d` is a directory of the file list: some file lies inside it.
pub open spec fn is_dir(files: Seq<FileEntry>, d: (bool, Seq<Seq<char>>)) -> bool {
    exists|i: int| 0 <= i < files.len() && file_under(#[trigger] files[i], d)
}

/// Number of files inside `d`.
pub open spec fn count_under(files: Seq<FileEntry>, d: (bool, Seq<Seq<char>>)) -> nat
    decreases files.len(),
{
    if files.len() == 0 {
        0
    } else {
        count_under(files.drop_last(), d) + if file_under(files.last(), d) {
            1nat
        } else {
            0nat
        }
    }
}

/// Total size of the files inside `d`.
pub open spec fn size_under(files: Seq<FileEntry>, d: (bool, Seq<Seq<char>>)) -> nat
    decreases files.len(),
{
    if files.len() == 0 {
        0
    } else {
        size_under(files.drop_last(), d) + if file_under(files.last(), d) {
            files.last().size as nat
        } else {
            0nat
        }
    }
}

/// Total size of all files.
pub open spec fn all_sizes(files: Seq<FileEntry>) -> nat
    decreases files.len(),
{
    if files.len() == 0 {
        0
    } else {
        all_sizes(files.drop_last()) + files.last().size as nat
    }
}

/// The (name, size) of the files directly in `d`, in order.
pub open spec fn child_files(files: Seq<FileEntry>, d: (bool, Seq<Seq<char>>)) -> Seq<(Seq<char>, u64)>
    decreases files.len(),
{
    if files.len() == 0 {
        seq![]
    } else {
        child_files(files.drop_last(), d) + if parent_key(files.last().path@) == Some(d) {
            seq![(files.last().name@, files.last().size)]
        } else {
            seq![]
        }
    }
}

/// The names of the subdirectories of `d`, in order of first appearance.
pub open spec fn child_names(files: Seq<FileEntry>, d: (bool, Seq<Seq<char>>)) -> Seq<Seq<char>>
    decreases files.len(),
{
    if files.len() == 0 {
        seq![]
    } else {
        let prev = child_names(files.drop_last(), d);
        match parent_key(files.last().path@) {
            Some(p) => if extends(p, d) && p.1.len() > d.1.len() && !prev.contains(p.1[d.1.len() as int]) {
                prev.push(p.1[d.1.len() as int])
            } else {
                prev
            },
            None => prev,
        }
    }
}

/// The deepest directory of the file list (number of components).
pub open spec fn max_depth(files: Seq<FileEntry>) -> int
    decreases files.len(),
{
    if files.len() == 0 {
        0
    } else {
        let m = max_depth(files.drop_last());
        match parent_key(files.last().path@) {
            Some(p) => if p.1.len() > m {
                p.1.len() as int
            } else {
                m
            },
            None => m,
        }
    }
}

// ───────────────────────────── model lemmas ─────────────────────────────

/// The views of a list of texts.
pub open spec fn views(v: Seq<Vec<char>>) -> Seq<Seq<char>> {
    v.map_values(|c: Vec<char>| c@)
}

/// Pushing a text pushes its view.
pub proof fn lemma_views_push(s: Seq<Vec<char>>, v: Vec<char>)
    ensures
        views(s.push(v)) == views(s).push(v@),
{
    assert(views(s.push(v)) =~= views(s).push(v@));
}

/// A file outside `d` changes nothing of `d`.
proof fn lemma_push_outside(files: Seq<FileEntry>, f: FileEntry, d: (bool, Seq<Seq<char>>))
    requires
        !file_under(f, d),
    ensures
        count_under(files.push(f), d) == count_under(files, d),
        size_under(files.push(f), d) == size_under(files, d),
        child_files(files.push(f), d) == child_files(files, d),
        child_names(files.push(f), d) == child_names(files, d),
{
    assert(files.push(f).drop_last() =~= files);
    assert(files.push(f).last() == f);
    match parent_key(f.path@) {
        Some(p) => {
            if p == d {
                assert(p.1.take(d.1.len() as int) =~= d.1);
            }
        },
        None => {},
    }
}

/// A file inside `d` counts once and adds its size; it is a direct child when
/// its directory is `d`, and names a subdirectory otherwise.
proof fn lemma_push_inside(files: Seq<FileEntry>, f: FileEntry, d: (bool, Seq<Seq<char>>))
    requires
        file_under(f, d),
    ensures
        count_under(files.push(f), d) == count_under(files, d) + 1,
        size_under(files.push(f), d) == size_under(files, d) + f.size,
        child_files(files.push(f), d) == child_files(files, d) + if parent_key(f.path@) == Some(d) {
            seq![(f.name@, f.size)]
        } else {
            seq![]
        },
        child_names(files.push(f), d) == ({
            let p = parent_key(f.path@)->0;
            let prev = child_names(files, d);
            if p.1.len() > d.1.len() && !prev.contains(p.1[d.1.len() as int]) {
                prev.push(p.1[d.1.len() as int])
            } else {
                prev
            }
        }),
{
    assert(files.push(f).drop_last() =~= files);
    assert(files.push(f).last() == f);
}

/// A directory names a subdirectory exactly when that subdirectory holds a
/// file.
proof fn lemma_child_names_dirs(files: Seq<FileEntry>, d: (bool, Seq<Seq<char>>), n: Seq<char>)
    ensures
        child_names(files, d).contains(n) <==> is_dir(files, (d.0, d.1.push(n))),
    decreases files.len(),
{
    if files.len() > 0 {
        let prev = files.drop_last();
        let f = files.last();
        lemma_child_names_dirs(prev, d, n);
        let e = (d.0, d.1.push(n));
        assert(is_dir(files, e) <==> is_dir(prev, e) || file_under(f, e)) by {
            if is_dir(files, e) {
                let i = choose|i: int| 0 <= i < files.len() && file_under(#[trigger] files[i], e);
                if i < prev.len() {
                    assert(prev[i] == files[i]);
                }
            }
            if is_dir(prev, e) {
                let i = choose|i: int| 0 <= i < prev.len() && file_under(#[trigger] prev[i], e);
                assert(files[i] == prev[i]);
            }
            if file_under(f, e) {
                assert(files[files.len() - 1] == f);
            }
        }
        let cn = child_names(prev, d);
        match parent_key(f.path@) {
            Some(p) => {
                if extends(p, d) && p.1.len() > d.1.len() {
                    let m = p.1[d.1.len() as int];
                    if !cn.contains(m) {
                        assert(cn.push(m).contains(n) <==> cn.contains(n) || m == n) by {
                            if cn.push(m).contains(n) {
                                let j = choose|j: int| 0 <= j < cn.push(m).len() && cn.push(m)[j] == n;
                                if j < cn.len() {
                                    assert(cn[j] == n);
                                }
                            }
                            if cn.contains(n) {
                                let j = choose|j: int| 0 <= j < cn.len() && cn[j] == n;
                                assert(cn.push(m)[j] == n);
                            }
                            if m == n {
                                assert(cn.push(m)[cn.len() as int] == n);
                            }
                        }
                    }
                    assert(extends(p, e) <==> m == n) by {
                        if extends(p, e) {
                            assert(p.1.take(e.1.len() as int)[d.1.len() as int] == e.1[d.1.len() as int]);
                        }
                        if m == n {
                            assert(p.1.take(e.1.len() as int) =~= e.1) by {
                                assert(p.1.take(d.1.len() as int) == d.1);
                                assert forall|j: int| 0 <= j < e.1.len() implies p.1.take(e.1.len() as int)[j] == e.1[j] by {
                                    if j < d.1.len() {
                                        assert(p.1.take(d.1.len() as int)[j] == d.1[j]);
                                    }
                                }
                            }
                        }
                    }
                } else {
                    if extends(p, e) {
                        assert(p.1.take(d.1.len() as int) =~= d.1) by {
                            assert forall|j: int| 0 <= j < d.1.len() implies p.1.take(d.1.len() as int)[j] == d.1[j] by {
                                assert(p.1.take(e.1.len() as int)[j] == e.1[j]);
                            }
                        }
                    }
                }
            },
            None => {},
        }
    }
}

/// A new file makes directories of exactly the directories it lies in.
proof fn lemma_is_dir_push(files: Seq<FileEntry>, f: FileEntry, d: (bool, Seq<Seq<char>>))
    ensures
        is_dir(files.push(f), d) <==> is_dir(files, d) || file_under(f, d),
{
    let fs = files.push(f);
    if is_dir(fs, d) {
        let i = choose|i: int| 0 <= i < fs.len() && file_under(#[trigger] fs[i], d);
        if i < files.len() {
            assert(files[i] == fs[i]);
        }
    }
    if is_dir(files, d) {
        let i = choose|i: int| 0 <= i < files.len() && file_under(#[trigger] files[i], d);
        assert(fs[i] == files[i]);
    }
    if file_under(f, d) {
        assert(fs[files.len() as int] == f);
    }
}

/// The directories a file lies in are the prefixes of its directory.
proof fn lemma_under_prefix(f: FileEntry, d: (bool, Seq<Seq<char>>))
    requires
        parent_key(f.path@) is Some,
    ensures
        file_under(f, d) <==> ({
            let p = parent_key(f.path@)->0;
            d.0 == p.0 && d.1.len() <= p.1.len() && d.1 == p.1.take(d.1.len() as int)
        }),
{
}

/// With no files there are no directories.
proof fn lemma_empty_model(d: (bool, Seq<Seq<char>>))
    ensures
        !is_dir(Seq::<FileEntry>::empty(), d),
        count_under(Seq::<FileEntry>::empty(), d) == 0,
        size_under(Seq::<FileEntry>::empty(), d) == 0,
        child_files(Seq::<FileEntry>::empty(), d) == Seq::<(Seq<char>, u64)>::empty(),
        child_names(Seq::<FileEntry>::empty(), d) == Seq::<Seq<char>>::empty(),
{
}

/// What lies inside a directory weighs no more than all files.
proof fn lemma_size_under_bound(files: Seq<FileEntry>, d: (bool, Seq<Seq<char>>))
    ensures
        size_under(files, d) <= all_sizes(files),
        count_under(files, d) <= files.len(),
    decreases files.len(),
{
    if files.len() > 0 {
        lemma_size_under_bound(files.drop_last(), d);
    }
}

/// Nothing lies in a directory that holds no file.
proof fn lemma_not_dir_empty(files: Seq<FileEntry>, d: (bool, Seq<Seq<char>>))
    requires
        !is_dir(files, d),
    ensures
        count_under(files, d) == 0,
        size_under(files, d) == 0,
        child_files(files, d) == Seq::<(Seq<char>, u64)>::empty(),
        child_names(files, d) == Seq::<Seq<char>>::empty(),
    decreases files.len(),
{
    if files.len() > 0 {
        let prev = files.drop_last();
        assert(!is_dir(prev, d)) by {
            if is_dir(prev, d) {
                let i = choose|i: int| 0 <= i < prev.len() && file_under(#[trigger] prev[i], d);
                assert(files[i] == prev[i]);
            }
        }
        lemma_not_dir_empty(prev, d);
        assert(!file_under(files.last(), d)) by {
            assert(files[files.len() - 1] == files.last());
        }
        match parent_key(files.last().path@) {
            Some(p) => {
                if p == d {
                    assert(p.1.take(d.1.len() as int) =~= d.1);
                }
            },
            None => {},
        }
    }
}

/// The sizes of a prefix of the files weigh no more than all of them.
proof fn lemma_all_sizes_prefix(files: Seq<FileEntry>, t: int)
    requires
        0 <= t <= files.len(),
    ensures
        all_sizes(files.take(t)) <= all_sizes(files),
    decreases files.len() - t,
{
    if t < files.len() {
        lemma_all_sizes_prefix(files, t + 1);
        assert(files.take(t + 1).drop_last() =~= files.take(t));
    } else {
        assert(files.take(t) =~= files);
    }
}

// ───────────────────────────── the directory table ─────────────────────────────

/// A directory being hashed.
struct DirNode {
    rooted: bool,
    comps: Vec<Vec<char>>,
    child_files: Vec<(Vec<char>, u64)>,
    children: Vec<usize>,
    hash: Option<[u8; 32]>,
    file_count: usize,
    total_size: u64,
}

/// The directory a node stands for.
spec fn key_of(n: DirNode) -> (bool, Seq<Seq<char>>) {
    (n.rooted, views(n.comps@))
}

/// The (name, size) pairs of a node's files.
spec fn files_view(v: Seq<(Vec<char>, u64)>) -> Seq<(Seq<char>, u64)> {
    v.map_values(|p: (Vec<char>, u64)| (p.0@, p.1))
}

/// Node `i` holds what the model of `fs` says of its directory.
spec fn node_ok(dirs: Seq<DirNode>, i: int, fs: Seq<FileEntry>) -> bool {
    let n = dirs[i];
    let d = key_of(n);
    &&& files_view(n.child_files@) == child_files(fs, d)
    &&& n.children@.len() == child_names(fs, d).len()
    &&& forall|j: int|
        0 <= j < n.children@.len() ==> (#[trigger] n.children@[j]) < dirs.len() && key_of(
            dirs[n.children@[j] as int],
        ) == (d.0, d.1.push(child_names(fs, d)[j]))
    &&& n.file_count == count_under(fs, d)
    &&& n.total_size == size_under(fs, d)
    &&& n.hash is None
}

/// The table holds each directory of `fs` once, with its model data.
spec fn table_ok(dirs: Seq<DirNode>, fs: Seq<FileEntry>) -> bool {
    &&& forall|i: int| 0 <= i < dirs.len() ==> is_dir(fs, key_of(#[trigger] dirs[i]))
    &&& forall|d: (bool, Seq<Seq<char>>)|
        is_dir(fs, d) ==> exists|i: int| 0 <= i < dirs.len() && key_of(#[trigger] dirs[i]) == d
    &&& forall|i: int, j: int| 0 <= i < j < dirs.len() ==> key_of(#[trigger] dirs[i]) != key_of(#[trigger] dirs[j])
    &&& forall|i: int| 0 <= i < dirs.len() ==> node_ok(dirs, i, fs)
}

/// Whether two component lists are equal.
fn comps_eq(a: &Vec<Vec<char>>, b: &Vec<Vec<char>>) -> (r: bool)
    ensures
        r == (views(a@) == views(b@)),
{
    if a.len() != b.len() {
        proof {
            assert(views(a@).len() != views(b@).len());
        }
        return false;
    }
    let mut k: usize = 0;
    while k < a.len()
        invariant
            a@.len() == b@.len(),
            0 <= k <= a@.len(),
            forall|j: int| 0 <= j < k ==> a@[j]@ == b@[j]@,
        decreases a@.len() - k,
    {
        if !eq_chars(a[k].as_slice(), b[k].as_slice()) {
            proof {
                assert(views(a@)[k as int] != views(b@)[k as int]);
            }
            return false;
        }
        k = k + 1;
    }
    proof {
        assert(views(a@) =~= views(b@));
    }
    true
}

/// The position of the node of a directory, if the table has one.
fn find_dir(dirs: &Vec<DirNode>, rooted: bool, comps: &Vec<Vec<char>>) -> (r: Option<usize>)
    ensures
        match r {
            Some(i) => i < dirs@.len() && key_of(dirs@[i as int]) == (rooted, views(comps@)),
            None => forall|i: int| 0 <= i < dirs@.len() ==> key_of(#[trigger] dirs@[i]) != (rooted, views(comps@)),
        },
{
    let mut i: usize = 0;
    while i < dirs.len()
        invariant
            0 <= i <= dirs@.len(),
            forall|j: int| 0 <= j < i ==> key_of(#[trigger] dirs@[j]) != (rooted, views(comps@)),
        decreases dirs@.len() - i,
    {
        if dirs[i].rooted == rooted && comps_eq(&dirs[i].comps, comps) {
            return Some(i);
        }
        i = i + 1;
    }
    None
}

/// A copy of the first `k` components.
fn copy_comps(c: &Vec<Vec<char>>, k: usize) -> (r: Vec<Vec<char>>)
    requires
        k <= c@.len(),
    ensures
        views(r@) == views(c@).take(k as int),
{
    let mut out: Vec<Vec<char>> = Vec::new();
    let mut j: usize = 0;
    while j < k
        invariant
            0 <= j <= k <= c@.len(),
            views(out@) == views(c@).take(j as int),
        decreases k - j,
    {
        let v = slice_range(c[j].as_slice(), 0, c[j].len());
        proof {
            assert(c@[j as int]@.subrange(0, c@[j as int]@.len() as int) =~= c@[j as int]@);
            assert(v@ == c@[j as int]@);
        }
        let ghost before = out@;
        out.push(v);
        proof {
            lemma_views_push(before, v);
            assert(views(c@).take(j + 1) =~= views(c@).take(j as int).push(c@[j as int]@));
        }
        j = j + 1;
    }
    out
}

/// A fresh node for a directory that holds nothing yet.
fn empty_node(rooted: bool, comps: Vec<Vec<char>>) -> (r: DirNode)
    ensures
        key_of(r) == (rooted, views(comps@)),
        r.child_files@.len() == 0,
        r.children@.len() == 0,
        r.hash is None,
        r.file_count == 0,
        r.total_size == 0,
{
    DirNode {
        rooted,
        comps,
        child_files: Vec::new(),
        children: Vec::new(),
        hash: None,
        file_count: 0,
        total_size: 0,
    }
}

/// `d` is a prefix of `c` of length at least `k`, rooted like `r`: its node
/// does not count the file being added yet.
spec fn pending(d: (bool, Seq<Seq<char>>), r: bool, c: Seq<Seq<char>>, k: int) -> bool {
    d.0 == r && k <= d.1.len() <= c.len() && d.1 == c.take(d.1.len() as int)
}

/// The file list a node's data should describe while a file is being added.
spec fn model_of(d: (bool, Seq<Seq<char>>), r: bool, c: Seq<Seq<char>>, k: int, fs: Seq<FileEntry>, fs2: Seq<FileEntry>) -> Seq<FileEntry> {
    if pending(d, r, c, k) {
        fs
    } else {
        fs2
    }
}

/// Add one file to the table.
#[verifier::rlimit(80)]
fn add_file(dirs: &mut Vec<DirNode>, Ghost(fs): Ghost<Seq<FileEntry>>, f: &FileEntry)
    requires
        table_ok(old(dirs)@, fs),
        all_sizes(fs.push(*f)) <= u64::MAX,
        fs.len() + 1 <= usize::MAX,
    ensures
        table_ok(final(dirs)@, fs.push(*f)),
{
    let ghost fs2 = fs.push(*f);
    let p = chars_of(f.path.as_str());
    let pc = path_components(p.as_slice());
    let rooted = p.len() > 0 && is_separator(p[0]);
    proof {
        assert(views(pc@) =~= components(f.path@));
        lemma_size_under_bound(fs2, (rooted, Seq::empty()));
    }
    if pc.len() == 0 {
        proof {
            assert(parent_key(f.path@) is None);
            assert forall|d: (bool, Seq<Seq<char>>)| true implies {
                &&& count_under(fs2, d) == count_under(fs, d)
                &&& size_under(fs2, d) == size_under(fs, d)
                &&& child_files(fs2, d) == child_files(fs, d)
                &&& child_names(fs2, d) == child_names(fs, d)
                &&& (is_dir(fs2, d) <==> is_dir(fs, d))
            } by {
                lemma_push_outside(fs, *f, d);
                lemma_is_dir_push(fs, *f, d);
            }
            assert forall|i: int| 0 <= i < dirs@.len() implies node_ok(dirs@, i, fs2) by {
                assert(node_ok(dirs@, i, fs));
            }
        }
        return;
    }
    let m = pc.len() - 1;
    let ghost c = views(pc@).take(m as int);
    let ghost r = rooted;
    proof {
        assert(parent_key(f.path@) == Some((r, c)));
    }
    let mut prefix: Vec<Vec<char>> = Vec::new();
    proof {
        assert(views(prefix@) =~= c.take(0));
    }
    let ghost d0 = dirs@;
    let mut cur: usize = match find_dir(dirs, rooted, &prefix) {
        Some(i) => i,
        None => {
            let ghost before = dirs@;
            let empty_comps: Vec<Vec<char>> = Vec::new();
            proof {
                assert(views(empty_comps@) =~= c.take(0));
            }
            let node = empty_node(rooted, empty_comps);
            dirs.push(node);
            proof {
                assert(!is_dir(fs, (r, c.take(0)))) by {
                    if is_dir(fs, (r, c.take(0))) {
                        let i = choose|i: int| 0 <= i < before.len() && key_of(#[trigger] before[i]) == (r, c.take(0));
                        assert(key_of(before[i]) != (r, views(prefix@)));
                    }
                }
                lemma_not_dir_empty(fs, (r, c.take(0)));
            }
            dirs.len() - 1
        },
    };
    let mut k: usize = 0;
    proof {
        assert(c.take(0) =~= Seq::<Seq<char>>::empty());
        assert(dirs@.len() >= d0.len());
        assert(forall|i: int| 0 <= i < d0.len() ==> dirs@[i] == d0[i]);
        assert(dirs@.len() > d0.len() ==> dirs@.len() == d0.len() + 1 && key_of(dirs@[d0.len() as int]) == (r, c.take(0)) && !is_dir(fs, (r, c.take(0))) && dirs@[d0.len() as int].child_files@.len() == 0 && dirs@[d0.len() as int].children@.len() == 0 && dirs@[d0.len() as int].hash is None && dirs@[d0.len() as int].file_count == 0 && dirs@[d0.len() as int].total_size == 0);
        assert forall|d: (bool, Seq<Seq<char>>)| is_dir(fs, d) implies exists|i: int| 0 <= i < dirs@.len() && key_of(#[trigger] dirs@[i]) == d by {
            let i = choose|i: int| 0 <= i < d0.len() && key_of(#[trigger] d0[i]) == d;
            assert(key_of(dirs@[i]) == d);
        }
        assert forall|i: int| 0 <= i < dirs@.len() implies is_dir(fs2, key_of(#[trigger] dirs@[i])) by {
            lemma_is_dir_push(fs, *f, key_of(dirs@[i]));
            lemma_under_prefix(*f, key_of(dirs@[i]));
        }
        assert forall|i: int| 0 <= i < dirs@.len() implies node_ok(dirs@, i, model_of(key_of(#[trigger] dirs@[i]), r, c, 0, fs, fs2)) by {
            let di = key_of(dirs@[i]);
            lemma_under_prefix(*f, di);
            if i < d0.len() {
                assert(node_ok(d0, i, fs));
                if !pending(di, r, c, 0) {
                    lemma_push_outside(fs, *f, di);
                }
                assert forall|j: int| 0 <= j < dirs@[i].children@.len() implies (#[trigger] dirs@[i].children@[j]) < dirs@.len() && key_of(dirs@[dirs@[i].children@[j] as int]) == (di.0, di.1.push(child_names(model_of(di, r, c, 0, fs, fs2), di)[j])) by {
                    let ch = d0[i].children@[j] as int;
                    assert(dirs@[ch] == d0[ch]);
                }
            } else {
                lemma_not_dir_empty(fs, di);
                assert(files_view(dirs@[i].child_files@) =~= Seq::<(Seq<char>, u64)>::empty());
            }
        }
    }
    loop
        invariant_except_break
            k <= m,
            pending(key_of(dirs@[cur as int]), r, c, k as int),
            forall|i: int| 0 <= i < dirs@.len() ==> node_ok(dirs@, i, model_of(key_of(#[trigger] dirs@[i]), r, c, k as int, fs, fs2)),
        invariant
            fs2 == fs.push(*f),
            all_sizes(fs2) <= u64::MAX,
            fs.len() + 1 <= usize::MAX,
            parent_key(f.path@) == Some((r, c)),
            r == rooted,
            m + 1 == pc@.len(),
            c == views(pc@).take(m as int),
            views(prefix@) == c.take(k as int),
            prefix@.len() == k,
            cur < dirs@.len(),
            key_of(dirs@[cur as int]) == (r, c.take(k as int)),
            forall|i: int| 0 <= i < dirs@.len() ==> is_dir(fs2, key_of(#[trigger] dirs@[i])),
            forall|d: (bool, Seq<Seq<char>>)|
                is_dir(fs, d) ==> exists|i: int| 0 <= i < dirs@.len() && key_of(#[trigger] dirs@[i]) == d,
            forall|j: int|
                #![trigger c.take(j)]
                0 <= j <= k ==> exists|i: int| 0 <= i < dirs@.len() && key_of(#[trigger] dirs@[i]) == (r, c.take(j)),
            forall|i: int|
                0 <= i < dirs@.len() ==> is_dir(fs, key_of(#[trigger] dirs@[i])) || ({
                    let d = key_of(dirs@[i]);
                    d.0 == r && d.1.len() <= k && d.1 == c.take(d.1.len() as int)
                }),
            forall|i: int, j: int| 0 <= i < j < dirs@.len() ==> key_of(#[trigger] dirs@[i]) != key_of(#[trigger] dirs@[j]),
        ensures
            forall|i: int| 0 <= i < dirs@.len() ==> node_ok(dirs@, i, fs2),
            forall|d: (bool, Seq<Seq<char>>)|
                is_dir(fs2, d) ==> exists|i: int| 0 <= i < dirs@.len() && key_of(#[trigger] dirs@[i]) == d,
        decreases m - k,
    {
        let ghost before = dirs@;
        let ghost d = key_of(dirs@[cur as int]);
        proof {
            lemma_under_prefix(*f, d);
            lemma_push_inside(fs, *f, d);
            lemma_size_under_bound(fs2, d);
            assert(node_ok(dirs@, cur as int, fs));
        }
        let fc = dirs[cur].file_count;
        let ts = dirs[cur].total_size;
        dirs[cur].file_count = fc + 1;
        dirs[cur].total_size = ts + f.size;
        if k == m {
            let name = chars_of(f.name.as_str());
            let ghost cf = dirs@[cur as int].child_files@;
            dirs[cur].child_files.push((name, f.size));
            proof {
                assert(c.take(k as int) =~= c);
                assert(d == (r, c));
                assert forall|i: int| 0 <= i < dirs@.len() implies key_of(#[trigger] dirs@[i]) == key_of(before[i]) by {}
                assert forall|dd: (bool, Seq<Seq<char>>)| is_dir(fs2, dd) implies exists|i: int| 0 <= i < dirs@.len() && key_of(#[trigger] dirs@[i]) == dd by {
                    lemma_is_dir_push(fs, *f, dd);
                    lemma_under_prefix(*f, dd);
                    if is_dir(fs, dd) {
                        let i = choose|i: int| 0 <= i < before.len() && key_of(#[trigger] before[i]) == dd;
                        assert(key_of(dirs@[i]) == dd);
                    } else {
                        let j = dd.1.len() as int;
                        assert(dd == (r, c.take(j)));
                        let i = choose|i: int| 0 <= i < before.len() && key_of(#[trigger] before[i]) == (r, c.take(j));
                        assert(key_of(dirs@[i]) == dd);
                    }
                }
                assert(files_view(dirs@[cur as int].child_files@) =~= files_view(cf).push((f.name@, f.size)));
                assert(child_files(fs2, d) =~= child_files(fs, d).push((f.name@, f.size)));
                assert forall|i: int| 0 <= i < dirs@.len() implies node_ok(dirs@, i, fs2) by {
                    if i == cur {
                        assert forall|j: int| 0 <= j < dirs@[i].children@.len() implies (#[trigger] dirs@[i].children@[j]) < dirs@.len() && key_of(dirs@[dirs@[i].children@[j] as int]) == (d.0, d.1.push(child_names(fs2, d)[j])) by {
                            assert(node_ok(before, i, fs));
                            let ch = before[i].children@[j] as int;
                            assert(key_of(dirs@[ch]) == key_of(before[ch]));
                        }
                    } else {
                        let di = key_of(before[i]);
                        assert(node_ok(before, i, model_of(di, r, c, k as int, fs, fs2)));
                        if pending(di, r, c, k as int) {
                            assert(di.1 =~= c.take(k as int));
                            assert(false);
                        }
                        assert forall|j: int| 0 <= j < dirs@[i].children@.len() implies (#[trigger] dirs@[i].children@[j]) < dirs@.len() && key_of(dirs@[dirs@[i].children@[j] as int]) == (di.0, di.1.push(child_names(fs2, di)[j])) by {
                            let ch = before[i].children@[j] as int;
                            assert(key_of(dirs@[ch]) == key_of(before[ch]));
                        }
                    }
                }
            }
            break;
        }
        let comp = slice_range(pc[k].as_slice(), 0, pc[k].len());
        let ghost pre_prefix = prefix@;
        prefix.push(comp);
        proof {
            assert(pc@[k as int]@.subrange(0, pc@[k as int]@.len() as int) =~= pc@[k as int]@);
            lemma_views_push(pre_prefix, comp);
            assert(c[k as int] == pc@[k as int]@);
            assert(c.take(k + 1) =~= c.take(k as int).push(c[k as int]));
        }
        let ghost mid = dirs@;
        let ghost kk = (r, c.take(k + 1));
        let old_cur = cur;
        match find_dir(dirs, rooted, &prefix) {
            Some(i) => {
                cur = i;
            },
            None => {
                let comps = copy_comps(&prefix, prefix.len());
                proof {
                    assert(views(prefix@).take(prefix@.len() as int) =~= views(prefix@));
                }
                let node = empty_node(rooted, comps);
                dirs.push(node);
                let ni = dirs.len() - 1;
                dirs[old_cur].children.push(ni);
                cur = ni;
            },
        }
        proof {
            lemma_child_names_dirs(fs, d, c[k as int]);
            let found = dirs@.len() == mid.len();
            assert(found ==> is_dir(fs, kk)) by {
                if found {
                    let ki = key_of(mid[cur as int]);
                    assert(ki == kk);
                }
            }
            assert(!found ==> !is_dir(fs, kk)) by {
                if !found && is_dir(fs, kk) {
                    let i = choose|i: int| 0 <= i < before.len() && key_of(#[trigger] before[i]) == kk;
                    assert(key_of(mid[i]) == kk);
                }
            }
            if !found {
                lemma_not_dir_empty(fs, kk);
            }
            assert forall|i: int| 0 <= i < mid.len() implies key_of(#[trigger] dirs@[i]) == key_of(before[i]) by {}
            assert(key_of(dirs@[cur as int]) == kk);
            assert forall|i: int| 0 <= i < dirs@.len() implies is_dir(fs2, key_of(#[trigger] dirs@[i])) by {
                if i >= mid.len() {
                    lemma_is_dir_push(fs, *f, kk);
                    lemma_under_prefix(*f, kk);
                }
            }
            assert forall|dd: (bool, Seq<Seq<char>>)| is_dir(fs, dd) implies exists|i: int| 0 <= i < dirs@.len() && key_of(#[trigger] dirs@[i]) == dd by {
                let i = choose|i: int| 0 <= i < before.len() && key_of(#[trigger] before[i]) == dd;
                assert(key_of(dirs@[i]) == dd);
            }
            assert forall|j: int| #![trigger c.take(j)] 0 <= j <= k + 1 implies exists|i: int| 0 <= i < dirs@.len() && key_of(#[trigger] dirs@[i]) == (r, c.take(j)) by {
                if j <= k {
                    let i = choose|i: int| 0 <= i < before.len() && key_of(#[trigger] before[i]) == (r, c.take(j));
                    assert(key_of(dirs@[i]) == (r, c.take(j)));
                } else {
                    assert(key_of(dirs@[cur as int]) == (r, c.take(j)));
                }
            }
            assert forall|i: int, j: int| 0 <= i < j < dirs@.len() implies key_of(#[trigger] dirs@[i]) != key_of(#[trigger] dirs@[j]) by {
                if j >= mid.len() {
                    assert(key_of(dirs@[i]) == key_of(mid[i]));
                }
            }
            assert forall|i: int| 0 <= i < dirs@.len() implies node_ok(dirs@, i, model_of(key_of(#[trigger] dirs@[i]), r, c, k + 1, fs, fs2)) by {
                let di = key_of(dirs@[i]);
                if i == old_cur {
                    assert(di == d);
                    assert(!pending(d, r, c, k + 1));
                    assert(node_ok(before, i, fs));
                    assert(parent_key(f.path@) != Some(d)) by {
                        if parent_key(f.path@) == Some(d) {
                            assert(d.1.len() == c.len());
                        }
                    }
                    assert(c.take(m as int)[k as int] == c[k as int]);
                    if found {
                        assert(child_names(fs2, d) == child_names(fs, d));
                    } else {
                        assert(child_names(fs2, d) == child_names(fs, d).push(c[k as int]));
                    }
                    assert forall|j: int| 0 <= j < dirs@[i].children@.len() implies (#[trigger] dirs@[i].children@[j]) < dirs@.len() && key_of(dirs@[dirs@[i].children@[j] as int]) == (di.0, di.1.push(child_names(fs2, di)[j])) by {
                        if j < before[i].children@.len() {
                            let ch = before[i].children@[j] as int;
                            assert(key_of(dirs@[ch]) == key_of(before[ch]));
                        } else {
                            assert(dirs@[i].children@[j] == cur);
                        }
                    }
                    assert(files_view(dirs@[i].child_files@) == files_view(before[i].child_files@));
                } else if i < mid.len() {
                    assert(node_ok(before, i, model_of(di, r, c, k as int, fs, fs2)));
                    assert(pending(di, r, c, k as int) == pending(di, r, c, k + 1)) by {
                        if pending(di, r, c, k as int) && di.1.len() == k {
                            assert(di.1 =~= c.take(k as int));
                        }
                    }
                    assert(dirs@[i] == before[i]);
                    assert forall|j: int| 0 <= j < dirs@[i].children@.len() implies (#[trigger] dirs@[i].children@[j]) < dirs@.len() && key_of(dirs@[dirs@[i].children@[j] as int]) == (di.0, di.1.push(child_names(model_of(di, r, c, k + 1, fs, fs2), di)[j])) by {
                        let ch = before[i].children@[j] as int;
                        assert(key_of(dirs@[ch]) == key_of(before[ch]));
                    }
                } else {
                    assert(di == kk);
                    assert(pending(kk, r, c, k + 1));
                    assert(files_view(dirs@[i].child_files@) =~= Seq::<(Seq<char>, u64)>::empty());
                }
            }
        }
        k = k + 1;
    }
}

/// Build the directory table of a file list.
fn build_table(files: &[FileEntry]) -> (dirs: Vec<DirNode>)
    requires
        all_sizes(files@) <= u64::MAX,
    ensures
        table_ok(dirs@, files@),
{
    let mut dirs: Vec<DirNode> = Vec::new();
    proof {
        assert(files@.take(0) =~= Seq::<FileEntry>::empty());
        assert forall|d: (bool, Seq<Seq<char>>)| is_dir(files@.take(0), d) implies exists|i: int| 0 <= i < dirs@.len() && key_of(#[trigger] dirs@[i]) == d by {
            lemma_empty_model(d);
        }
    }
    let mut t: usize = 0;
    while t < files.len()
        invariant
            0 <= t <= files@.len(),
            all_sizes(files@) <= u64::MAX,
            table_ok(dirs@, files@.take(t as int)),
        decreases files@.len() - t,
    {
        proof {
            lemma_all_sizes_prefix(files@, t + 1);
            assert(files@.take(t + 1) =~= files@.take(t as int).push(files@[t as int]));
        }
        add_file(&mut dirs, Ghost(files@.take(t as int)), &files[t]);
        t = t + 1;
    }
    proof {
        assert(files@.take(files@.len() as int) =~= files@);
    }
    dirs
}

// ───────────────────────────── hashing ─────────────────────────────

/// The UTF-8 encoding of one character.
pub open spec fn utf8_char(c: char) -> Seq<u8> {
    let v = c as u32;
    if v < 0x80 {
        seq![v as u8]
    } else if v < 0x800 {
        seq![(0xC0 | (v >> 6)) as u8, (0x80 | (v & 0x3F)) as u8]
    } else if v < 0x10000 {
        seq![(0xE0 | (v >> 12)) as u8, (0x80 | ((v >> 6) & 0x3F)) as u8, (0x80 | (v & 0x3F)) as u8]
    } else {
        seq![
            (0xF0 | (v >> 18)) as u8,
            (0x80 | ((v >> 12) & 0x3F)) as u8,
            (0x80 | ((v >> 6) & 0x3F)) as u8,
            (0x80 | (v & 0x3F)) as u8,
        ]
    }
}

/// The UTF-8 encoding of a text (`str::as_bytes`).
pub open spec fn utf8(s: Seq<char>) -> Seq<u8>
    decreases s.len(),
{
    if s.len() == 0 {
        seq![]
    } else {
        utf8(s.drop_last()) + utf8_char(s.last())
    }
}

/// The eight little-endian bytes of `n` (`u64::to_le_bytes`).
pub open spec fn le8(n: u64) -> Seq<u8> {
    Seq::new(8, |i: int| ((n >> (8 * i) as u64) & 0xff) as u8)
}

/// The number that eight little-endian bytes stand for.
pub open spec fn le8_value(b: Seq<u8>) -> int {
    b[0] as int + b[1] as int * 0x100 + b[2] as int * 0x1_0000 + b[3] as int * 0x100_0000
        + b[4] as int * 0x1_0000_0000 + b[5] as int * 0x100_0000_0000 + b[6] as int
        * 0x1_0000_0000_0000 + b[7] as int * 0x100_0000_0000_0000
}

/// A size's eight bytes decode back to the exact size, so the bytes of a
/// directory's hash input pin down every file size in it.
pub proof fn lemma_le8_decodes(n: u64)
    ensures
        le8(n).len() == 8,
        le8_value(le8(n)) == n,
{
    let b = le8(n);
    assert(b[0] as u64 == n & 0xff) by {
        assert(((n >> 0u64) & 0xff) as u8 as u64 == n & 0xff) by (bit_vector);
    }
    assert(b[1] as u64 == (n >> 8) & 0xff) by {
        assert(((n >> 8u64) & 0xff) as u8 as u64 == (n >> 8) & 0xff) by (bit_vector);
    }
    assert(b[2] as u64 == (n >> 16) & 0xff) by {
        assert(((n >> 16u64) & 0xff) as u8 as u64 == (n >> 16) & 0xff) by (bit_vector);
    }
    assert(b[3] as u64 == (n >> 24) & 0xff) by {
        assert(((n >> 24u64) & 0xff) as u8 as u64 == (n >> 24) & 0xff) by (bit_vector);
    }
    assert(b[4] as u64 == (n >> 32) & 0xff) by {
        assert(((n >> 32u64) & 0xff) as u8 as u64 == (n >> 32) & 0xff) by (bit_vector);
    }
    assert(b[5] as u64 == (n >> 40) & 0xff) by {
        assert(((n >> 40u64) & 0xff) as u8 as u64 == (n >> 40) & 0xff) by (bit_vector);
    }
    assert(b[6] as u64 == (n >> 48) & 0xff) by {
        assert(((n >> 48u64) & 0xff) as u8 as u64 == (n >> 48) & 0xff) by (bit_vector);
    }
    assert(b[7] as u64 == (n >> 56) & 0xff) by {
        assert(((n >> 56u64) & 0xff) as u8 as u64 == (n >> 56) & 0xff) by (bit_vector);
    }
    assert((n & 0xff) + ((n >> 8) & 0xff) * 0x100 + ((n >> 16) & 0xff) * 0x1_0000 + ((n >> 24) & 0xff)
        * 0x100_0000 + ((n >> 32) & 0xff) * 0x1_0000_0000 + ((n >> 40) & 0xff) * 0x100_0000_0000
        + ((n >> 48) & 0xff) * 0x1_0000_0000_0000 + ((n >> 56) & 0xff) * 0x100_0000_0000_0000 == n)
        by (bit_vector);
}

/// Different sizes give different bytes.
pub proof fn lemma_le8_injective(a: u64, b: u64)
    requires
        le8(a) == le8(b),
    ensures
        a == b,
{
    lemma_le8_decodes(a);
    lemma_le8_decodes(b);
}

/// Each (name, size) as the name's bytes followed by the size's bytes.
pub open spec fn encode_pairs(s: Seq<(Seq<char>, u64)>) -> Seq<u8>
    decreases s.len(),
{
    if s.len() == 0 {
        seq![]
    } else {
        encode_pairs(s.drop_last()) + utf8(s.last().0) + le8(s.last().1)
    }
}

/// Files listed under the same names in the same order encode alike only
/// when their sizes agree too: the encoding keeps every exact size.
pub proof fn lemma_encode_pairs_keeps_sizes(s1: Seq<(Seq<char>, u64)>, s2: Seq<(Seq<char>, u64)>)
    requires
        s1.len() == s2.len(),
        forall|i: int| 0 <= i < s1.len() ==> (#[trigger] s1[i]).0 == s2[i].0,
        encode_pairs(s1) == encode_pairs(s2),
    ensures
        s1 == s2,
    decreases s1.len(),
{
    if s1.len() > 0 {
        let a = s1.last();
        let b = s2.last();
        let x1 = encode_pairs(s1.drop_last());
        let x2 = encode_pairs(s2.drop_last());
        let e1 = encode_pairs(s1);
        let e2 = encode_pairs(s2);
        assert(a.0 == b.0);
        lemma_le8_decodes(a.1);
        lemma_le8_decodes(b.1);
        assert(e1 == x1 + utf8(a.0) + le8(a.1));
        assert(e2 == x2 + utf8(b.0) + le8(b.1));
        assert(x1.len() == x2.len());
        assert(le8(a.1) =~= e1.subrange(e1.len() - 8, e1.len() as int));
        assert(le8(b.1) =~= e2.subrange(e2.len() - 8, e2.len() as int));
        lemma_le8_injective(a.1, b.1);
        assert(x1 =~= e1.subrange(0, x1.len() as int));
        assert(x2 =~= e2.subrange(0, x2.len() as int));
        assert forall|i: int| 0 <= i < s1.drop_last().len() implies (#[trigger] s1.drop_last()[i]).0
            == s2.drop_last()[i].0 by {
            assert(s1.drop_last()[i] == s1[i]);
            assert(s2.drop_last()[i] == s2[i]);
        }
        lemma_encode_pairs_keeps_sizes(s1.drop_last(), s2.drop_last());
        assert(s1 =~= s1.drop_last().push(a));
        assert(s2 =~= s2.drop_last().push(b));
    } else {
        assert(s1 =~= s2);
    }
}

/// The hashes one after another.
pub open spec fn concat_hashes(s: Seq<Seq<u8>>) -> Seq<u8>
    decreases s.len(),
{
    if s.len() == 0 {
        seq![]
    } else {
        concat_hashes(s.drop_last()) + s.last()
    }
}

/// Order of (name, size) pairs: by name, then by size.
pub open spec fn pair_le(a: (Seq<char>, u64), b: (Seq<char>, u64)) -> bool {
    (lex_le(a.0, b.0) && a.0 != b.0) || (a.0 == b.0 && a.1 <= b.1)
}

/// `x` put before the first element it does not exceed.
pub open spec fn insert_pair(x: (Seq<char>, u64), s: Seq<(Seq<char>, u64)>) -> Seq<(Seq<char>, u64)>
    decreases s.len(),
{
    if s.len() == 0 {
        seq![x]
    } else if pair_le(x, s[0]) {
        seq![x] + s
    } else {
        seq![s[0]] + insert_pair(x, s.drop_first())
    }
}

/// The pairs in increasing order.
pub open spec fn sort_pairs(s: Seq<(Seq<char>, u64)>) -> Seq<(Seq<char>, u64)>
    decreases s.len(),
{
    if s.len() == 0 {
        seq![]
    } else {
        insert_pair(s.last(), sort_pairs(s.drop_last()))
    }
}

/// Lexicographic order on byte strings.
pub open spec fn bytes_le(a: Seq<u8>, b: Seq<u8>) -> bool
    decreases a.len(),
{
    if a.len() == 0 {
        true
    } else if b.len() == 0 {
        false
    } else if a[0] != b[0] {
        a[0] < b[0]
    } else {
        bytes_le(a.drop_first(), b.drop_first())
    }
}

/// `x` put before the first hash it does not exceed.
pub open spec fn insert_hash(x: Seq<u8>, s: Seq<Seq<u8>>) -> Seq<Seq<u8>>
    decreases s.len(),
{
    if s.len() == 0 {
        seq![x]
    } else if bytes_le(x, s[0]) {
        seq![x] + s
    } else {
        seq![s[0]] + insert_hash(x, s.drop_first())
    }
}

/// The hashes in increasing order.
pub open spec fn sort_hashes(s: Seq<Seq<u8>>) -> Seq<Seq<u8>>
    decreases s.len(),
{
    if s.len() == 0 {
        seq![]
    } else {
        insert_hash(s.last(), sort_hashes(s.drop_last()))
    }
}

/// What a directory's hash is computed from: its files' (name, size) pairs in
/// order, then its subdirectories' hashes in order.
pub open spec fn merkle_preimage(files: Seq<(Seq<char>, u64)>, hashes: Seq<Seq<u8>>) -> Seq<u8> {
    encode_pairs(sort_pairs(files)) + concat_hashes(sort_hashes(hashes))
}

/// The Merkle hash of directory `d`.
pub open spec fn merkle(files: Seq<FileEntry>, d: (bool, Seq<Seq<char>>)) -> Seq<u8>
    decreases max_depth(files) - d.1.len(), 1int, 0int,
{
    blake3_digest(
        merkle_preimage(
            child_files(files, d),
            child_hashes(files, d, child_names(files, d).len() as int),
        ),
    )
}

/// The Merkle hashes of the first `k` subdirectories of `d`.
pub open spec fn child_hashes(files: Seq<FileEntry>, d: (bool, Seq<Seq<char>>), k: int) -> Seq<Seq<u8>>
    decreases max_depth(files) - d.1.len(), 0int, k,
{
    if k <= 0 {
        seq![]
    } else if d.1.len() < max_depth(files) {
        child_hashes(files, d, k - 1).push(merkle(files, (d.0, d.1.push(child_names(files, d)[k - 1]))))
    } else {
        child_hashes(files, d, k - 1).push(seq![])
    }
}

/// Appends the UTF-8 encoding of `v` to `out`.
fn push_utf8(out: &mut Vec<u8>, v: &[char])
    ensures
        final(out)@ == old(out)@ + utf8(v@),
{
    let ghost start = out@;
    let mut i: usize = 0;
    while i < v.len()
        invariant
            0 <= i <= v@.len(),
            out@ == start + utf8(v@.take(i as int)),
        decreases v@.len() - i,
    {
        let c = v[i] as u32;
        if c < 0x80 {
            out.push(c as u8);
        } else if c < 0x800 {
            out.push((0xC0 | (c >> 6)) as u8);
            out.push((0x80 | (c & 0x3F)) as u8);
        } else if c < 0x10000 {
            out.push((0xE0 | (c >> 12)) as u8);
            out.push((0x80 | ((c >> 6) & 0x3F)) as u8);
            out.push((0x80 | (c & 0x3F)) as u8);
        } else {
            out.push((0xF0 | (c >> 18)) as u8);
            out.push((0x80 | ((c >> 12) & 0x3F)) as u8);
            out.push((0x80 | ((c >> 6) & 0x3F)) as u8);
            out.push((0x80 | (c & 0x3F)) as u8);
        }
        proof {
            assert(v@.take(i + 1).drop_last() =~= v@.take(i as int));
            assert(v@.take(i + 1).last() == v@[i as int]);
            assert(out@ =~= start + utf8(v@.take(i + 1)));
        }
        i = i + 1;
    }
    proof {
        assert(v@.take(v@.len() as int) =~= v@);
    }
}

/// Appends the eight little-endian bytes of `n` to `out`.
fn push_le8(out: &mut Vec<u8>, n: u64)
    ensures
        final(out)@ == old(out)@ + le8(n),
{
    let ghost start = out@;
    let mut i: u64 = 0;
    while i < 8
        invariant
            0 <= i <= 8,
            out@ == start + le8(n).take(i as int),
        decreases 8 - i,
    {
        out.push(((n >> (8 * i)) & 0xff) as u8);
        proof {
            assert(le8(n).take(i + 1) =~= le8(n).take(i as int).push(le8(n)[i as int]));
        }
        i = i + 1;
    }
    proof {
        assert(le8(n).take(8) =~= le8(n));
    }
}

/// Decides the order of two (name, size) pairs.
fn pair_le_exec(a: &(Vec<char>, u64), b: &(Vec<char>, u64)) -> (r: bool)
    ensures
        r == pair_le((a.0@, a.1), (b.0@, b.1)),
{
    let same = eq_chars(a.0.as_slice(), b.0.as_slice());
    if same {
        a.1 <= b.1
    } else {
        lex_le_chars(a.0.as_slice(), b.0.as_slice())
    }
}

/// Inserting before the first element not exceeded is `insert_pair`.
proof fn lemma_insert_pair_at(x: (Seq<char>, u64), s: Seq<(Seq<char>, u64)>, j: int)
    requires
        0 <= j <= s.len(),
        forall|k: int| 0 <= k < j ==> !pair_le(x, #[trigger] s[k]),
        j < s.len() ==> pair_le(x, s[j]),
    ensures
        insert_pair(x, s) == s.insert(j, x),
    decreases j,
{
    if j == 0 {
        if s.len() == 0 {
            assert(s.insert(0, x) =~= seq![x]);
        } else {
            assert(s.insert(0, x) =~= seq![x] + s);
        }
    } else {
        let t = s.drop_first();
        assert forall|k: int| 0 <= k < j - 1 implies !pair_le(x, #[trigger] t[k]) by {
            assert(t[k] == s[k + 1]);
        }
        lemma_insert_pair_at(x, t, j - 1);
        assert(s.insert(j, x) =~= seq![s[0]] + t.insert(j - 1, x));
    }
}

/// A copy of a (name, size) pair.
fn copy_pair(p: &(Vec<char>, u64)) -> (r: (Vec<char>, u64))
    ensures
        r.0@ == p.0@,
        r.1 == p.1,
{
    let v = slice_range(p.0.as_slice(), 0, p.0.len());
    proof {
        assert(p.0@.subrange(0, p.0@.len() as int) =~= p.0@);
    }
    (v, p.1)
}

/// The pairs sorted by name, then size.
fn sorted_pairs(v: &Vec<(Vec<char>, u64)>) -> (r: Vec<(Vec<char>, u64)>)
    ensures
        files_view(r@) == sort_pairs(files_view(v@)),
{
    let mut out: Vec<(Vec<char>, u64)> = Vec::new();
    let mut i: usize = 0;
    while i < v.len()
        invariant
            0 <= i <= v@.len(),
            files_view(out@) == sort_pairs(files_view(v@).take(i as int)),
        decreases v@.len() - i,
    {
        let x = copy_pair(&v[i]);
        let ghost xv = (x.0@, x.1);
        let mut j: usize = 0;
        while j < out.len() && !pair_le_exec(&x, &out[j])
            invariant
                0 <= j <= out@.len(),
                xv == (x.0@, x.1),
                forall|k: int| 0 <= k < j ==> !pair_le(xv, #[trigger] files_view(out@)[k]),
            decreases out@.len() - j,
        {
            j = j + 1;
        }
        proof {
            lemma_insert_pair_at(xv, files_view(out@), j as int);
            assert(files_view(v@).take(i + 1).drop_last() =~= files_view(v@).take(i as int));
            assert(files_view(v@).take(i + 1).last() == xv);
        }
        let ghost before = out@;
        out.insert(j, x);
        proof {
            assert(files_view(out@) =~= files_view(before).insert(j as int, xv));
        }
        i = i + 1;
    }
    proof {
        assert(files_view(v@).take(v@.len() as int) =~= files_view(v@));
    }
    out
}

/// The views of a list of hashes.
spec fn hash_views(v: Seq<[u8; 32]>) -> Seq<Seq<u8>> {
    v.map_values(|h: [u8; 32]| h@)
}

/// Decides the order of two hashes.
fn bytes_le_exec(a: &[u8; 32], b: &[u8; 32]) -> (r: bool)
    ensures
        r == bytes_le(a@, b@),
{
    let mut i: usize = 0;
    proof {
        assert(a@.skip(0) =~= a@);
        assert(b@.skip(0) =~= b@);
    }
    while i < 32 && a[i] == b[i]
        invariant
            0 <= i <= 32,
            a@.len() == 32,
            b@.len() == 32,
            bytes_le(a@, b@) == bytes_le(a@.skip(i as int), b@.skip(i as int)),
        decreases 32 - i,
    {
        proof {
            assert(a@.skip(i as int).drop_first() =~= a@.skip(i + 1));
            assert(b@.skip(i as int).drop_first() =~= b@.skip(i + 1));
        }
        i = i + 1;
    }
    if i == 32 {
        proof {
            assert(a@.skip(32).len() == 0);
        }
        true
    } else {
        proof {
            assert(a@.skip(i as int)[0] == a@[i as int]);
            assert(b@.skip(i as int)[0] == b@[i as int]);
        }
        a[i] < b[i]
    }
}

/// Inserting before the first hash not exceeded is `insert_hash`.
proof fn lemma_insert_hash_at(x: Seq<u8>, s: Seq<Seq<u8>>, j: int)
    requires
        0 <= j <= s.len(),
        forall|k: int| 0 <= k < j ==> !bytes_le(x, #[trigger] s[k]),
        j < s.len() ==> bytes_le(x, s[j]),
    ensures
        insert_hash(x, s) == s.insert(j, x),
    decreases j,
{
    if j == 0 {
        if s.len() == 0 {
            assert(s.insert(0, x) =~= seq![x]);
        } else {
            assert(s.insert(0, x) =~= seq![x] + s);
        }
    } else {
        let t = s.drop_first();
        assert forall|k: int| 0 <= k < j - 1 implies !bytes_le(x, #[trigger] t[k]) by {
            assert(t[k] == s[k + 1]);
        }
        lemma_insert_hash_at(x, t, j - 1);
        assert(s.insert(j, x) =~= seq![s[0]] + t.insert(j - 1, x));
    }
}

/// The hashes in increasing order.
fn sorted_hashes(v: &Vec<[u8; 32]>) -> (r: Vec<[u8; 32]>)
    ensures
        hash_views(r@) == sort_hashes(hash_views(v@)),
{
    let mut out: Vec<[u8; 32]> = Vec::new();
    let mut i: usize = 0;
    while i < v.len()
        invariant
            0 <= i <= v@.len(),
            hash_views(out@) == sort_hashes(hash_views(v@).take(i as int)),
        decreases v@.len() - i,
    {
        let x = v[i];
        let mut j: usize = 0;
        while j < out.len() && !bytes_le_exec(&x, &out[j])
            invariant
                0 <= j <= out@.len(),
                forall|k: int| 0 <= k < j ==> !bytes_le(x@, #[trigger] hash_views(out@)[k]),
            decreases out@.len() - j,
        {
            j = j + 1;
        }
        proof {
            lemma_insert_hash_at(x@, hash_views(out@), j as int);
            assert(hash_views(v@).take(i + 1).drop_last() =~= hash_views(v@).take(i as int));
            assert(hash_views(v@).take(i + 1).last() == x@);
        }
        let ghost before = out@;
        out.insert(j, x);
        proof {
            assert(hash_views(out@) =~= hash_views(before).insert(j as int, x@));
        }
        i = i + 1;
    }
    proof {
        assert(hash_views(v@).take(v@.len() as int) =~= hash_views(v@));
    }
    out
}

/// The bytes a directory's hash is computed from: its files' (name, size)
/// pairs sorted, each as the name's UTF-8 bytes and the size's eight
/// little-endian bytes, then its subdirectories' hashes sorted.
fn merkle_input(files: &Vec<(Vec<char>, u64)>, hashes: &Vec<[u8; 32]>) -> (r: Vec<u8>)
    ensures
        r@ == merkle_preimage(files_view(files@), hash_views(hashes@)),
{
    let sf = sorted_pairs(files);
    let sh = sorted_hashes(hashes);
    let mut out: Vec<u8> = Vec::new();
    let mut i: usize = 0;
    while i < sf.len()
        invariant
            0 <= i <= sf@.len(),
            out@ == encode_pairs(files_view(sf@).take(i as int)),
        decreases sf@.len() - i,
    {
        push_utf8(&mut out, sf[i].0.as_slice());
        push_le8(&mut out, sf[i].1);
        proof {
            assert(files_view(sf@).take(i + 1).drop_last() =~= files_view(sf@).take(i as int));
            assert(files_view(sf@).take(i + 1).last() == (sf@[i as int].0@, sf@[i as int].1));
        }
        i = i + 1;
    }
    proof {
        assert(files_view(sf@).take(sf@.len() as int) =~= files_view(sf@));
    }
    let ghost mid = out@;
    let mut k: usize = 0;
    while k < sh.len()
        invariant
            0 <= k <= sh@.len(),
            out@ == mid + concat_hashes(hash_views(sh@).take(k as int)),
        decreases sh@.len() - k,
    {
        let h = sh[k];
        let mut b: usize = 0;
        let ghost before = out@;
        while b < 32
            invariant
                0 <= b <= 32,
                h@.len() == 32,
                out@ == before + h@.take(b as int),
            decreases 32 - b,
        {
            out.push(h[b]);
            proof {
                assert(h@.take(b + 1) =~= h@.take(b as int).push(h@[b as int]));
            }
            b = b + 1;
        }
        proof {
            assert(h@.take(32) =~= h@);
            assert(hash_views(sh@).take(k + 1).drop_last() =~= hash_views(sh@).take(k as int));
            assert(hash_views(sh@).take(k + 1).last() == h@);
            assert(out@ =~= mid + concat_hashes(hash_views(sh@).take(k + 1)));
        }
        k = k + 1;
    }
    proof {
        assert(hash_views(sh@).take(sh@.len() as int) =~= hash_views(sh@));
    }
    out
}

/// Node `i` holds what the model of `fs` says of its directory, its hash
/// aside.
spec fn data_ok(dirs: Seq<DirNode>, i: int, fs: Seq<FileEntry>) -> bool {
    let n = dirs[i];
    let d = key_of(n);
    &&& files_view(n.child_files@) == child_files(fs, d)
    &&& n.children@.len() == child_names(fs, d).len()
    &&& forall|j: int|
        0 <= j < n.children@.len() ==> (#[trigger] n.children@[j]) < dirs.len() && key_of(
            dirs[n.children@[j] as int],
        ) == (d.0, d.1.push(child_names(fs, d)[j]))
    &&& n.file_count == count_under(fs, d)
    &&& n.total_size == size_under(fs, d)
}

/// The table of `fs` with the hashes known so far.
spec fn tree_ok(dirs: Seq<DirNode>, fs: Seq<FileEntry>) -> bool {
    &&& forall|i: int| 0 <= i < dirs.len() ==> is_dir(fs, key_of(#[trigger] dirs[i]))
    &&& forall|d: (bool, Seq<Seq<char>>)|
        is_dir(fs, d) ==> exists|i: int| 0 <= i < dirs.len() && key_of(#[trigger] dirs[i]) == d
    &&& forall|i: int, j: int| 0 <= i < j < dirs.len() ==> key_of(#[trigger] dirs[i]) != key_of(#[trigger] dirs[j])
    &&& forall|i: int| 0 <= i < dirs.len() ==> data_ok(dirs, i, fs)
    &&& forall|i: int| 0 <= i < dirs.len() ==> ((#[trigger] dirs[i]).hash matches Some(h) ==> h@ == merkle(fs, key_of(dirs[i])))
}

/// Node `a` is node `b` with perhaps a hash filled in.
spec fn same_data(a: DirNode, b: DirNode) -> bool {
    &&& a.rooted == b.rooted
    &&& a.comps == b.comps
    &&& a.child_files == b.child_files
    &&& a.children == b.children
    &&& a.file_count == b.file_count
    &&& a.total_size == b.total_size
}

/// A directory is no deeper than the deepest directory.
proof fn lemma_dir_depth(files: Seq<FileEntry>, d: (bool, Seq<Seq<char>>))
    requires
        is_dir(files, d),
    ensures
        d.1.len() <= max_depth(files),
    decreases files.len(),
{
    let prev = files.drop_last();
    if is_dir(prev, d) {
        lemma_dir_depth(prev, d);
    } else {
        let i = choose|i: int| 0 <= i < files.len() && file_under(#[trigger] files[i], d);
        if i < prev.len() {
            assert(prev[i] == files[i]);
        }
    }
}

/// The built table is a tree without hashes.
proof fn lemma_table_tree(dirs: Seq<DirNode>, fs: Seq<FileEntry>)
    requires
        table_ok(dirs, fs),
    ensures
        tree_ok(dirs, fs),
{
    assert forall|i: int| 0 <= i < dirs.len() implies data_ok(dirs, i, fs) by {
        assert(node_ok(dirs, i, fs));
    }
    assert forall|i: int| 0 <= i < dirs.len() implies ((#[trigger] dirs[i]).hash matches Some(h) ==> h@ == merkle(fs, key_of(dirs[i]))) by {
        assert(node_ok(dirs, i, fs));
    }
}

/// Fill in the hash of node `i` (and of the nodes below it).
fn compute_hash(dirs: &mut Vec<DirNode>, Ghost(fs): Ghost<Seq<FileEntry>>, i: usize)
    requires
        tree_ok(old(dirs)@, fs),
        i < old(dirs)@.len(),
    ensures
        tree_ok(final(dirs)@, fs),
        final(dirs)@.len() == old(dirs)@.len(),
        forall|j: int| 0 <= j < old(dirs)@.len() ==> same_data(#[trigger] final(dirs)@[j], old(dirs)@[j]),
        forall|j: int| 0 <= j < old(dirs)@.len() && (#[trigger] old(dirs)@[j]).hash is Some ==> final(dirs)@[j].hash == old(dirs)@[j].hash,
        final(dirs)@[i as int].hash is Some,
    decreases max_depth(fs) - key_of(old(dirs)@[i as int]).1.len(),
{
    if dirs[i].hash.is_some() {
        return;
    }
    let ghost start = dirs@;
    let ghost d = key_of(dirs@[i as int]);
    proof {
        assert(data_ok(dirs@, i as int, fs));
        lemma_dir_depth(fs, d);
    }
    let n = dirs[i].children.len();
    let mut hs: Vec<[u8; 32]> = Vec::new();
    let mut j: usize = 0;
    while j < n
        invariant
            0 <= j <= n,
            i < dirs@.len(),
            tree_ok(dirs@, fs),
            dirs@.len() == start.len(),
            forall|q: int| 0 <= q < start.len() ==> same_data(#[trigger] dirs@[q], start[q]),
            forall|q: int| 0 <= q < start.len() && (#[trigger] start[q]).hash is Some ==> dirs@[q].hash == start[q].hash,
            start[i as int].hash is None,
            d == key_of(start[i as int]),
            d == key_of(old(dirs)@[i as int]),
            n == start[i as int].children@.len(),
            data_ok(start, i as int, fs),
            d.1.len() <= max_depth(fs),
            hash_views(hs@) == child_hashes(fs, d, j as int),
        decreases n - j,
    {
        let ch = dirs[i].children[j];
        proof {
            assert(dirs@[i as int].children == start[i as int].children);
            assert(key_of(start[ch as int]) == (d.0, d.1.push(child_names(fs, d)[j as int])));
            assert(key_of(dirs@[ch as int]) == key_of(start[ch as int]));
            lemma_dir_depth(fs, key_of(dirs@[ch as int]));
            assert(key_of(dirs@[ch as int]).1.len() == d.1.len() + 1);
        }
        let ghost mid = dirs@;
        compute_hash(dirs, Ghost(fs), ch);
        let h = dirs[ch].hash.unwrap();
        proof {
            assert(same_data(dirs@[ch as int], mid[ch as int]));
            assert(h@ == merkle(fs, key_of(dirs@[ch as int])));
            assert forall|q: int| 0 <= q < start.len() implies same_data(#[trigger] dirs@[q], start[q]) by {
                assert(same_data(dirs@[q], mid[q]));
            }
            assert forall|q: int| 0 <= q < start.len() && (#[trigger] start[q]).hash is Some implies dirs@[q].hash == start[q].hash by {
                assert(mid[q].hash == start[q].hash);
            }
        }
        let ghost before = hs@;
        hs.push(h);
        proof {
            assert(hash_views(hs@) =~= hash_views(before).push(h@));
        }
        j = j + 1;
    }
    let input = merkle_input(&dirs[i].child_files, &hs);
    let h = blake3_hash(input.as_slice());
    proof {
        assert(dirs@[i as int].child_files == start[i as int].child_files);
        assert(h@ == merkle(fs, d));
    }
    let ghost before = dirs@;
    dirs[i].hash = Some(h);
    proof {
        assert forall|q: int| 0 <= q < dirs@.len() implies key_of(#[trigger] dirs@[q]) == key_of(before[q]) by {}
        assert forall|q: int| 0 <= q < dirs@.len() implies data_ok(dirs@, q, fs) by {
            assert(data_ok(before, q, fs));
            let dq = key_of(dirs@[q]);
            assert forall|jj: int| 0 <= jj < dirs@[q].children@.len() implies (#[trigger] dirs@[q].children@[jj]) < dirs@.len() && key_of(dirs@[dirs@[q].children@[jj] as int]) == (dq.0, dq.1.push(child_names(fs, dq)[jj])) by {
                let c = before[q].children@[jj] as int;
                assert(key_of(dirs@[c]) == key_of(before[c]));
            }
        }
        assert forall|dd: (bool, Seq<Seq<char>>)| is_dir(fs, dd) implies exists|q: int| 0 <= q < dirs@.len() && key_of(#[trigger] dirs@[q]) == dd by {
            let q = choose|q: int| 0 <= q < before.len() && key_of(#[trigger] before[q]) == dd;
            assert(key_of(dirs@[q]) == dd);
        }
        assert forall|q: int| 0 <= q < start.len() implies same_data(#[trigger] dirs@[q], start[q]) by {
            assert(same_data(before[q], start[q]));
        }
        assert forall|q: int| 0 <= q < start.len() && (#[trigger] start[q]).hash is Some implies dirs@[q].hash == start[q].hash by {
            assert(before[q].hash == start[q].hash);
        }
    }
}

/// Fill in every node's hash.
fn compute_all_hashes(dirs: &mut Vec<DirNode>, Ghost(fs): Ghost<Seq<FileEntry>>)
    requires
        tree_ok(old(dirs)@, fs),
    ensures
        tree_ok(final(dirs)@, fs),
        forall|i: int| 0 <= i < final(dirs)@.len() ==> (#[trigger] final(dirs)@[i]).hash is Some,
{
    let mut i: usize = 0;
    while i < dirs.len()
        invariant
            0 <= i <= dirs@.len(),
            tree_ok(dirs@, fs),
            forall|q: int| 0 <= q < i ==> (#[trigger] dirs@[q]).hash is Some,
        decreases dirs@.len() - i,
    {
        let ghost before = dirs@;
        compute_hash(dirs, Ghost(fs), i);
        proof {
            assert forall|q: int| 0 <= q < i + 1 implies (#[trigger] dirs@[q]).hash is Some by {
                if q < i {
                    assert(before[q].hash is Some);
                }
            }
        }
        i = i + 1;
    }
}

// ───────────────────────────── grouping ─────────────────────────────

/// Order of component lists (`Path` order): element by element, a proper
/// prefix first.
pub open spec fn comps_lt(a: Seq<Seq<char>>, b: Seq<Seq<char>>) -> bool
    decreases a.len(),
{
    if a.len() == 0 {
        b.len() > 0
    } else if b.len() == 0 {
        false
    } else if a[0] != b[0] {
        lex_le(a[0], b[0])
    } else {
        comps_lt(a.drop_first(), b.drop_first())
    }
}

/// Order of directories (`Path` order): the empty relative path first, then
/// rooted paths, then other relative paths, each by their components.
pub open spec fn key_lt(a: (bool, Seq<Seq<char>>), b: (bool, Seq<Seq<char>>)) -> bool {
    if a.0 == b.0 {
        comps_lt(a.1, b.1)
    } else if a.0 {
        b.1.len() > 0
    } else {
        a.1.len() == 0
    }
}

/// No list comes before itself.
proof fn lemma_comps_irrefl(a: Seq<Seq<char>>)
    ensures
        !comps_lt(a, a),
    decreases a.len(),
{
    if a.len() > 0 {
        lemma_comps_irrefl(a.drop_first());
    }
}

/// Distinct lists are ordered one way or the other.
proof fn lemma_comps_total(a: Seq<Seq<char>>, b: Seq<Seq<char>>)
    requires
        a != b,
    ensures
        comps_lt(a, b) || comps_lt(b, a),
    decreases a.len(),
{
    if a.len() == 0 {
        if b.len() == 0 {
            assert(a =~= b);
        }
    } else if b.len() > 0 {
        if a[0] != b[0] {
            lemma_lex_total(a[0], b[0]);
        } else {
            assert(a.drop_first() != b.drop_first()) by {
                if a.drop_first() == b.drop_first() {
                    assert(a =~= seq![a[0]] + a.drop_first());
                    assert(b =~= seq![b[0]] + b.drop_first());
                }
            }
            lemma_comps_total(a.drop_first(), b.drop_first());
        }
    }
}

/// The order of lists is transitive.
proof fn lemma_comps_trans(a: Seq<Seq<char>>, b: Seq<Seq<char>>, c: Seq<Seq<char>>)
    requires
        comps_lt(a, b),
        comps_lt(b, c),
    ensures
        comps_lt(a, c),
    decreases a.len(),
{
    if a.len() > 0 && b.len() > 0 && c.len() > 0 {
        if a[0] != b[0] && b[0] != c[0] {
            lemma_lex_trans(a[0], b[0], c[0]);
            if a[0] == c[0] {
                lemma_lex_antisym(a[0], b[0]);
            }
        } else if a[0] == b[0] && b[0] == c[0] {
            lemma_comps_trans(a.drop_first(), b.drop_first(), c.drop_first());
        }
    }
}

/// The order of lists is asymmetric.
proof fn lemma_comps_asym(a: Seq<Seq<char>>, b: Seq<Seq<char>>)
    requires
        comps_lt(a, b),
    ensures
        !comps_lt(b, a),
    decreases a.len(),
{
    if a.len() > 0 && b.len() > 0 {
        if a[0] != b[0] {
            if lex_le(b[0], a[0]) {
                lemma_lex_antisym(a[0], b[0]);
            }
        } else {
            lemma_comps_asym(a.drop_first(), b.drop_first());
        }
    }
}

/// The order of directories is a strict total order.
proof fn lemma_key_order(a: (bool, Seq<Seq<char>>), b: (bool, Seq<Seq<char>>), c: (bool, Seq<Seq<char>>))
    ensures
        !key_lt(a, a),
        a != b ==> key_lt(a, b) || key_lt(b, a),
        key_lt(a, b) ==> !key_lt(b, a),
        key_lt(a, b) && key_lt(b, c) ==> key_lt(a, c),
{
    lemma_comps_irrefl(a.1);
    if a != b && a.0 == b.0 {
        assert(a.1 != b.1);
        lemma_comps_total(a.1, b.1);
    }
    if key_lt(a, b) && a.0 == b.0 {
        lemma_comps_asym(a.1, b.1);
    }
    if key_lt(a, b) && key_lt(b, c) && a.0 == b.0 && b.0 == c.0 {
        lemma_comps_trans(a.1, b.1, c.1);
    }
}

/// The components joined with `/`.
pub open spec fn join_slash(cs: Seq<Seq<char>>) -> Seq<char>
    decreases cs.len(),
{
    if cs.len() == 0 {
        seq![]
    } else if cs.len() == 1 {
        cs[0]
    } else {
        join_slash(cs.drop_last()) + seq!['/'] + cs.last()
    }
}

/// How a directory is written: `/` first when rooted, then its components
/// joined with `/`.
pub open spec fn render(d: (bool, Seq<Seq<char>>)) -> Seq<char> {
    (if d.0 {
        seq!['/']
    } else {
        seq![]
    }) + join_slash(d.1)
}

/// A directory takes part in grouping: it holds enough files and bytes.
pub open spec fn eligible(files: Seq<FileEntry>, config: FolderDedupConfig, d: (bool, Seq<Seq<char>>)) -> bool {
    &&& is_dir(files, d)
    &&& count_under(files, d) >= config.min_children
    &&& size_under(files, d) >= config.min_total_size
}

/// `keys` are the directories of group `g`, in order.
pub open spec fn group_keys(keys: Seq<(bool, Seq<Seq<char>>)>, g: DupeFolderGroup, files: Seq<FileEntry>, config: FolderDedupConfig) -> bool {
    &&& keys.len() >= 2
    &&& forall|a: int, b: int| 0 <= a < b < keys.len() ==> key_lt(#[trigger] keys[a], #[trigger] keys[b])
    &&& forall|a: int| 0 <= a < keys.len() ==> eligible(files, config, #[trigger] keys[a]) && merkle(files, keys[a]) == g.merkle_hash@
    &&& forall|d: (bool, Seq<Seq<char>>)| eligible(files, config, d) && merkle(files, d) == g.merkle_hash@ ==> keys.contains(d)
    &&& g.directories@.len() == keys.len()
    &&& forall|a: int| 0 <= a < keys.len() ==> (#[trigger] g.directories@[a])@ == render(keys[a])
    &&& g.file_count == count_under(files, keys[0])
    &&& g.total_size == size_under(files, keys[0])
}

/// `g` reports all eligible directories sharing one Merkle hash, at least two
/// of them, in `Path` order, with the file count and size of the first.
pub open spec fn describes_group(g: DupeFolderGroup, files: Seq<FileEntry>, config: FolderDedupConfig) -> bool {
    exists|keys: Seq<(bool, Seq<Seq<char>>)>| group_keys(keys, g, files, config)
}

/// Bytes a group wastes: its size for each directory beyond the first.
pub open spec fn wasted(g: DupeFolderGroup) -> int {
    g.total_size * (g.directories@.len() - 1)
}

/// Decides the order of two nodes' directories.
fn key_lt_exec(a: &DirNode, b: &DirNode) -> (r: bool)
    ensures
        r == key_lt(key_of(*a), key_of(*b)),
{
    if a.rooted != b.rooted {
        if a.rooted {
            return b.comps.len() > 0;
        } else {
            return a.comps.len() == 0;
        }
    }
    let ghost av = views(a.comps@);
    let ghost bv = views(b.comps@);
    let mut k: usize = 0;
    proof {
        assert(av.skip(0) =~= av);
        assert(bv.skip(0) =~= bv);
    }
    loop
        invariant
            0 <= k <= a.comps@.len(),
            k <= b.comps@.len(),
            a.rooted == b.rooted,
            av == views(a.comps@),
            bv == views(b.comps@),
            comps_lt(av, bv) == comps_lt(av.skip(k as int), bv.skip(k as int)),
        decreases a.comps@.len() - k,
    {
        if k == a.comps.len() {
            proof {
                assert(av.skip(k as int).len() == 0);
            }
            return k < b.comps.len();
        }
        if k == b.comps.len() {
            proof {
                assert(bv.skip(k as int).len() == 0);
            }
            return false;
        }
        proof {
            assert(av.skip(k as int)[0] == a.comps@[k as int]@);
            assert(bv.skip(k as int)[0] == b.comps@[k as int]@);
        }
        if !eq_chars(a.comps[k].as_slice(), b.comps[k].as_slice()) {
            return lex_le_chars(a.comps[k].as_slice(), b.comps[k].as_slice());
        }
        proof {
            assert(av.skip(k as int).drop_first() =~= av.skip(k + 1));
            assert(bv.skip(k as int).drop_first() =~= bv.skip(k + 1));
        }
        k = k + 1;
    }
}

/// How a node's directory is written.
fn render_node(n: &DirNode) -> (r: String)
    ensures
        r@ == render(key_of(*n)),
{
    let mut v: Vec<char> = Vec::new();
    if n.rooted {
        v.push('/');
    }
    let ghost head = v@;
    let mut k: usize = 0;
    while k < n.comps.len()
        invariant
            0 <= k <= n.comps@.len(),
            v@ == head + join_slash(views(n.comps@).take(k as int)),
        decreases n.comps@.len() - k,
    {
        if k > 0 {
            v.push('/');
        }
        let ghost before = v@;
        let c = &n.comps[k];
        let mut j: usize = 0;
        while j < c.len()
            invariant
                0 <= j <= c@.len(),
                v@ == before + c@.take(j as int),
            decreases c@.len() - j,
        {
            v.push(c[j]);
            proof {
                assert(c@.take(j + 1) =~= c@.take(j as int).push(c@[j as int]));
            }
            j = j + 1;
        }
        proof {
            let vs = views(n.comps@);
            assert(c@.take(c@.len() as int) =~= c@);
            assert(vs.take(k + 1).drop_last() =~= vs.take(k as int));
            assert(vs.take(k + 1).last() == c@);
            if k == 0 {
                assert(vs.take(1)[0] == c@);
                assert(join_slash(vs.take(0)) =~= Seq::<char>::empty());
            }
            assert(v@ =~= head + join_slash(vs.take(k + 1)));
        }
        k = k + 1;
    }
    proof {
        assert(views(n.comps@).take(n.comps@.len() as int) =~= views(n.comps@));
    }
    crate::text::string_of(v.as_slice())
}

/// Whether two hashes are equal.
fn hash_eq(a: &[u8; 32], b: &[u8; 32]) -> (r: bool)
    ensures
        r == (a@ == b@),
{
    let mut i: usize = 0;
    while i < 32
        invariant
            0 <= i <= 32,
            a@.len() == 32,
            b@.len() == 32,
            forall|k: int| 0 <= k < i ==> a@[k] == b@[k],
        decreases 32 - i,
    {
        if a[i] != b[i] {
            return false;
        }
        i = i + 1;
    }
    proof {
        assert(a@ =~= b@);
    }
    true
}

/// The eligible nodes grouped by hash: each group's hash and its members in
/// increasing position.
fn collect_groups(dirs: &Vec<DirNode>, Ghost(fs): Ghost<Seq<FileEntry>>, config: &FolderDedupConfig) -> (groups: Vec<([u8; 32], Vec<usize>)>)
    requires
        tree_ok(dirs@, fs),
        forall|i: int| 0 <= i < dirs@.len() ==> (#[trigger] dirs@[i]).hash is Some,
    ensures
        forall|g: int| 0 <= g < groups@.len() ==> (#[trigger] groups@[g]).1@.len() >= 1,
        forall|g: int, a: int, b: int| 0 <= g < groups@.len() && 0 <= a < b < groups@[g].1@.len() ==> (#[trigger] groups@[g].1@[a]) < (#[trigger] groups@[g].1@[b]),
        forall|g: int, a: int| 0 <= g < groups@.len() && 0 <= a < groups@[g].1@.len() ==> {
            let m = (#[trigger] groups@[g].1@[a]) as int;
            &&& m < dirs@.len()
            &&& eligible(fs, *config, key_of(dirs@[m]))
            &&& merkle(fs, key_of(dirs@[m])) == groups@[g].0@
        },
        forall|g1: int, g2: int| 0 <= g1 < g2 < groups@.len() ==> (#[trigger] groups@[g1]).0@ != (#[trigger] groups@[g2]).0@,
        forall|q: int| 0 <= q < dirs@.len() && eligible(fs, *config, key_of(#[trigger] dirs@[q])) ==> exists|g: int| 0 <= g < groups@.len() && groups@[g].1@.contains(q as usize),
{
    let mut groups: Vec<([u8; 32], Vec<usize>)> = Vec::new();
    let mut i: usize = 0;
    while i < dirs.len()
        invariant
            0 <= i <= dirs@.len(),
            tree_ok(dirs@, fs),
            forall|q: int| 0 <= q < dirs@.len() ==> (#[trigger] dirs@[q]).hash is Some,
            forall|g: int| 0 <= g < groups@.len() ==> (#[trigger] groups@[g]).1@.len() >= 1,
            forall|g: int, a: int, b: int| 0 <= g < groups@.len() && 0 <= a < b < groups@[g].1@.len() ==> (#[trigger] groups@[g].1@[a]) < (#[trigger] groups@[g].1@[b]),
            forall|g: int, a: int| 0 <= g < groups@.len() && 0 <= a < groups@[g].1@.len() ==> {
                let m = (#[trigger] groups@[g].1@[a]) as int;
                &&& m < i
                &&& eligible(fs, *config, key_of(dirs@[m]))
                &&& merkle(fs, key_of(dirs@[m])) == groups@[g].0@
            },
            forall|g1: int, g2: int| 0 <= g1 < g2 < groups@.len() ==> (#[trigger] groups@[g1]).0@ != (#[trigger] groups@[g2]).0@,
            forall|q: int| 0 <= q < i && eligible(fs, *config, key_of(#[trigger] dirs@[q])) ==> exists|g: int| 0 <= g < groups@.len() && groups@[g].1@.contains(q as usize),
        decreases dirs@.len() - i,
    {
        let node = &dirs[i];
        proof {
            assert(data_ok(dirs@, i as int, fs));
            assert(is_dir(fs, key_of(dirs@[i as int])));
        }
        if node.file_count >= config.min_children && node.total_size >= config.min_total_size {
            let h = node.hash.unwrap();
            proof {
                assert(h@ == merkle(fs, key_of(dirs@[i as int])));
            }
            let mut g: usize = 0;
            while g < groups.len() && !hash_eq(&groups[g].0, &h)
                invariant
                    0 <= g <= groups@.len(),
                    forall|k: int| 0 <= k < g ==> (#[trigger] groups@[k]).0@ != h@,
                decreases groups@.len() - g,
            {
                g = g + 1;
            }
            let ghost before = groups@;
            if g < groups.len() {
                let mut entry = groups.remove(g);
                entry.1.push(i);
                groups.insert(g, entry);
                proof {
                    assert forall|k: int| 0 <= k < groups@.len() && k != g implies groups@[k] == before[k] by {}
                }
            } else {
                let mut members: Vec<usize> = Vec::new();
                members.push(i);
                groups.push((h, members));
            }
            proof {
                assert forall|q: int| 0 <= q < i + 1 && eligible(fs, *config, key_of(#[trigger] dirs@[q])) implies exists|gg: int| 0 <= gg < groups@.len() && groups@[gg].1@.contains(q as usize) by {
                    if q < i {
                        let gg = choose|gg: int| 0 <= gg < before.len() && before[gg].1@.contains(q as usize);
                        if gg == g {
                            let a = choose|a: int| 0 <= a < before[gg].1@.len() && before[gg].1@[a] == q as usize;
                            assert(groups@[gg].1@[a] == q as usize);
                        } else {
                            assert(groups@[gg] == before[gg]);
                        }
                    } else {
                        let gg = g as int;
                        assert(groups@[gg].1@[groups@[gg].1@.len() - 1] == i);
                    }
                }
            }
        }
        i = i + 1;
    }
    groups
}

/// The members in directory order.
fn sort_members(dirs: &Vec<DirNode>, Ghost(fs): Ghost<Seq<FileEntry>>, members: &Vec<usize>) -> (r: Vec<usize>)
    requires
        tree_ok(dirs@, fs),
        forall|a: int| 0 <= a < members@.len() ==> (#[trigger] members@[a]) < dirs@.len(),
        forall|a: int, b: int| 0 <= a < b < members@.len() ==> (#[trigger] members@[a]) < (#[trigger] members@[b]),
    ensures
        r@.len() == members@.len(),
        forall|a: int| 0 <= a < r@.len() ==> members@.contains(#[trigger] r@[a]),
        forall|a: int| 0 <= a < members@.len() ==> r@.contains(#[trigger] members@[a]),
        forall|a: int, b: int| 0 <= a < b < r@.len() ==> key_lt(key_of(dirs@[(#[trigger] r@[a]) as int]), key_of(dirs@[(#[trigger] r@[b]) as int])),
{
    let mut out: Vec<usize> = Vec::new();
    let mut i: usize = 0;
    while i < members.len()
        invariant
            0 <= i <= members@.len(),
            tree_ok(dirs@, fs),
            forall|a: int| 0 <= a < members@.len() ==> (#[trigger] members@[a]) < dirs@.len(),
            forall|a: int, b: int| 0 <= a < b < members@.len() ==> (#[trigger] members@[a]) < (#[trigger] members@[b]),
            out@.len() == i,
            forall|a: int| 0 <= a < out@.len() ==> members@.take(i as int).contains(#[trigger] out@[a]),
            forall|a: int| 0 <= a < i ==> out@.contains(#[trigger] members@[a]),
            forall|a: int, b: int| 0 <= a < b < out@.len() ==> key_lt(key_of(dirs@[(#[trigger] out@[a]) as int]), key_of(dirs@[(#[trigger] out@[b]) as int])),
        decreases members@.len() - i,
    {
        let x = members[i];
        let mut j: usize = 0;
        while j < out.len() && !key_lt_exec(&dirs[x], &dirs[out[j]])
            invariant
                0 <= j <= out@.len(),
                x < dirs@.len(),
                forall|a: int| 0 <= a < out@.len() ==> (#[trigger] out@[a]) < dirs@.len(),
                forall|k: int| 0 <= k < j ==> !key_lt(key_of(dirs@[x as int]), key_of(dirs@[(#[trigger] out@[k]) as int])),
            decreases out@.len() - j,
        {
            j = j + 1;
        }
        let ghost before = out@;
        proof {
            assert forall|a: int| 0 <= a < before.len() implies (#[trigger] before[a]) != x && key_of(dirs@[before[a] as int]) != key_of(dirs@[x as int]) by {
                let b = choose|b: int| 0 <= b < i && members@.take(i as int)[b] == before[a];
                assert(members@[b] < members@[i as int]);
                if key_of(dirs@[before[a] as int]) == key_of(dirs@[x as int]) {
                    let p = before[a] as int;
                    let q = x as int;
                    if p < q {
                        assert(key_of(dirs@[p]) != key_of(dirs@[q]));
                    } else {
                        assert(key_of(dirs@[q]) != key_of(dirs@[p]));
                    }
                }
            }
        }
        out.insert(j, x);
        proof {
            let kx = key_of(dirs@[x as int]);
            assert forall|a: int, b: int| 0 <= a < b < out@.len() implies key_lt(key_of(dirs@[(#[trigger] out@[a]) as int]), key_of(dirs@[(#[trigger] out@[b]) as int])) by {
                if b < j {
                    assert(out@[a] == before[a] && out@[b] == before[b]);
                } else if b == j {
                    assert(out@[a] == before[a]);
                    let ka = key_of(dirs@[before[a] as int]);
                    lemma_key_order(kx, ka, kx);
                } else if a == j {
                    assert(out@[b] == before[b - 1]);
                    let kj = key_of(dirs@[before[j as int] as int]);
                    let kb = key_of(dirs@[before[b - 1] as int]);
                    lemma_key_order(kx, kj, kb);
                } else if a < j {
                    assert(out@[a] == before[a] && out@[b] == before[b - 1]);
                } else {
                    assert(out@[a] == before[a - 1] && out@[b] == before[b - 1]);
                }
            }
            assert forall|a: int| 0 <= a < out@.len() implies members@.take(i + 1).contains(#[trigger] out@[a]) by {
                if a == j {
                    assert(members@.take(i + 1)[i as int] == x);
                } else {
                    let e = if a < j { before[a] } else { before[a - 1] };
                    assert(out@[a] == e);
                    let b = choose|b: int| 0 <= b < i && members@.take(i as int)[b] == e;
                    assert(members@.take(i + 1)[b] == e);
                }
            }
            assert forall|a: int| 0 <= a < i + 1 implies out@.contains(#[trigger] members@[a]) by {
                if a == i {
                    assert(out@[j as int] == x);
                } else {
                    let k = choose|k: int| 0 <= k < before.len() && before[k] == members@[a];
                    if k < j {
                        assert(out@[k] == before[k]);
                    } else {
                        assert(out@[k + 1] == before[k]);
                    }
                }
            }
        }
        i = i + 1;
    }
    proof {
        assert(members@.take(members@.len() as int) =~= members@);
    }
    out
}

/// The reported group of a hash from its members in directory order.
fn build_group(dirs: &Vec<DirNode>, Ghost(fs): Ghost<Seq<FileEntry>>, h: [u8; 32], sorted: &Vec<usize>) -> (g: DupeFolderGroup)
    requires
        sorted@.len() >= 1,
        forall|a: int| 0 <= a < sorted@.len() ==> (#[trigger] sorted@[a]) < dirs@.len(),
        tree_ok(dirs@, fs),
    ensures
        g.merkle_hash == h,
        g.directories@.len() == sorted@.len(),
        forall|a: int| 0 <= a < sorted@.len() ==> (#[trigger] g.directories@[a])@ == render(key_of(dirs@[sorted@[a] as int])),
        g.file_count == count_under(fs, key_of(dirs@[sorted@[0] as int])),
        g.total_size == size_under(fs, key_of(dirs@[sorted@[0] as int])),
{
    let mut names: Vec<String> = Vec::new();
    let mut a: usize = 0;
    while a < sorted.len()
        invariant
            0 <= a <= sorted@.len(),
            forall|k: int| 0 <= k < sorted@.len() ==> (#[trigger] sorted@[k]) < dirs@.len(),
            names@.len() == a,
            forall|k: int| 0 <= k < a ==> (#[trigger] names@[k])@ == render(key_of(dirs@[sorted@[k] as int])),
        decreases sorted@.len() - a,
    {
        let r = render_node(&dirs[sorted[a]]);
        names.push(r);
        a = a + 1;
    }
    let first = &dirs[sorted[0]];
    proof {
        assert(data_ok(dirs@, sorted@[0] as int, fs));
    }
    DupeFolderGroup {
        directories: names,
        file_count: first.file_count,
        total_size: first.total_size,
        merkle_hash: h,
    }
}

/// What `collect_groups` hands back: the eligible nodes grouped by hash.
spec fn groups_ok(dirs: Seq<DirNode>, fs: Seq<FileEntry>, config: FolderDedupConfig, groups: Seq<([u8; 32], Vec<usize>)>) -> bool {
    &&& forall|g: int| 0 <= g < groups.len() ==> (#[trigger] groups[g]).1@.len() >= 1
    &&& forall|g: int, a: int, b: int| 0 <= g < groups.len() && 0 <= a < b < groups[g].1@.len() ==> (#[trigger] groups[g].1@[a]) < (#[trigger] groups[g].1@[b])
    &&& forall|g: int, a: int| 0 <= g < groups.len() && 0 <= a < groups[g].1@.len() ==> {
        let m = (#[trigger] groups[g].1@[a]) as int;
        &&& m < dirs.len()
        &&& eligible(fs, config, key_of(dirs[m]))
        &&& merkle(fs, key_of(dirs[m])) == groups[g].0@
    }
    &&& forall|g1: int, g2: int| 0 <= g1 < g2 < groups.len() ==> (#[trigger] groups[g1]).0@ != (#[trigger] groups[g2]).0@
    &&& forall|q: int| 0 <= q < dirs.len() && eligible(fs, config, key_of(#[trigger] dirs[q])) ==> exists|g: int| 0 <= g < groups.len() && groups[g].1@.contains(q as usize)
}

/// The group of the eligible node `q` has the hash of `q`'s directory.
proof fn lemma_group_of(dirs: Seq<DirNode>, fs: Seq<FileEntry>, config: FolderDedupConfig, groups: Seq<([u8; 32], Vec<usize>)>, q: int) -> (g: int)
    requires
        groups_ok(dirs, fs, config, groups),
        0 <= q < dirs.len(),
        dirs.len() <= usize::MAX,
        eligible(fs, config, key_of(dirs[q])),
    ensures
        0 <= g < groups.len(),
        groups[g].1@.contains(q as usize),
        groups[g].0@ == merkle(fs, key_of(dirs[q])),
{
    let g = choose|g: int| 0 <= g < groups.len() && groups[g].1@.contains(q as usize);
    let a = choose|a: int| 0 <= a < groups[g].1@.len() && groups[g].1@[a] == q as usize;
    assert(merkle(fs, key_of(dirs[groups[g].1@[a] as int])) == groups[g].0@);
    g
}

/// Two groups with one hash are one group.
proof fn lemma_same_hash(groups: Seq<([u8; 32], Vec<usize>)>, g1: int, g2: int, dirs: Seq<DirNode>, fs: Seq<FileEntry>, config: FolderDedupConfig)
    requires
        groups_ok(dirs, fs, config, groups),
        0 <= g1 < groups.len(),
        0 <= g2 < groups.len(),
        groups[g1].0@ == groups[g2].0@,
    ensures
        g1 == g2,
{
    if g1 < g2 {
        assert(groups[g1].0@ != groups[g2].0@);
    } else if g2 < g1 {
        assert(groups[g2].0@ != groups[g1].0@);
    }
}

/// The reported group of hash group `g`.
fn report_group(dirs: &Vec<DirNode>, Ghost(fs): Ghost<Seq<FileEntry>>, config: &FolderDedupConfig, groups: &Vec<([u8; 32], Vec<usize>)>, g: usize) -> (r: DupeFolderGroup)
    requires
        tree_ok(dirs@, fs),
        groups_ok(dirs@, fs, *config, groups@),
        g < groups@.len(),
        groups@[g as int].1@.len() >= 2,
    ensures
        describes_group(r, fs, *config),
        r.merkle_hash == groups@[g as int].0,
{
    let members = &groups[g].1;
    let ghost gi = g as int;
    proof {
        assert forall|a: int| 0 <= a < members@.len() implies (#[trigger] members@[a]) < dirs@.len() by {
            assert(groups@[gi].1@[a] == members@[a]);
        }
        assert forall|a: int, b: int| 0 <= a < b < members@.len() implies (#[trigger] members@[a]) < (#[trigger] members@[b]) by {
            assert(groups@[gi].1@[a] < groups@[gi].1@[b]);
        }
    }
    let sorted = sort_members(dirs, Ghost(fs), members);
    let r = build_group(dirs, Ghost(fs), groups[g].0, &sorted);
    proof {
        let h = groups@[gi].0;
        let keys = sorted@.map_values(|m: usize| key_of(dirs@[m as int]));
        assert forall|a: int, b: int| 0 <= a < b < keys.len() implies key_lt(#[trigger] keys[a], #[trigger] keys[b]) by {
            assert(key_lt(key_of(dirs@[sorted@[a] as int]), key_of(dirs@[sorted@[b] as int])));
        }
        assert forall|a: int| 0 <= a < keys.len() implies eligible(fs, *config, #[trigger] keys[a]) && merkle(fs, keys[a]) == r.merkle_hash@ by {
            assert(members@.contains(sorted@[a]));
            let k = choose|k: int| 0 <= k < members@.len() && members@[k] == sorted@[a];
            assert(groups@[gi].1@[k] == members@[k]);
        }
        assert forall|d: (bool, Seq<Seq<char>>)| eligible(fs, *config, d) && merkle(fs, d) == r.merkle_hash@ implies keys.contains(d) by {
            let q = choose|q: int| 0 <= q < dirs@.len() && key_of(#[trigger] dirs@[q]) == d;
            assert(dirs@.len() == dirs.len());
            let gg = lemma_group_of(dirs@, fs, *config, groups@, q);
            lemma_same_hash(groups@, gg, gi, dirs@, fs, *config);
            let k = choose|k: int| 0 <= k < members@.len() && members@[k] == q as usize;
            assert(sorted@.contains(members@[k]));
            let a = choose|a: int| 0 <= a < sorted@.len() && sorted@[a] == members@[k];
            assert(keys[a] == d);
        }
        assert forall|a: int| 0 <= a < keys.len() implies (#[trigger] r.directories@[a])@ == render(keys[a]) by {
            assert(r.directories@[a]@ == render(key_of(dirs@[sorted@[a] as int])));
        }
        assert(group_keys(keys, r, fs, *config));
    }
    r
}

/// The groups reported so far, for the first `i` hash groups, ordered by
/// wasted bytes.
spec fn reported(out: Seq<DupeFolderGroup>, ws: Seq<u128>, groups: Seq<([u8; 32], Vec<usize>)>, i: int, fs: Seq<FileEntry>, config: FolderDedupConfig) -> bool {
    &&& ws.len() == out.len()
    &&& forall|k: int| 0 <= k < out.len() ==> (#[trigger] ws[k]) == wasted(out[k])
    &&& forall|k: int| 0 <= k < out.len() ==> describes_group(#[trigger] out[k], fs, config)
    &&& forall|k: int| 0 <= k < out.len() ==> exists|gi: int| 0 <= gi < i && (#[trigger] out[k]).merkle_hash@ == groups[gi].0@
    &&& forall|a: int, b: int| 0 <= a < b < out.len() ==> (#[trigger] out[a]).merkle_hash@ != (#[trigger] out[b]).merkle_hash@
    &&& forall|gi: int| 0 <= gi < i && (#[trigger] groups[gi]).1@.len() >= 2 ==> exists|k: int| 0 <= k < out.len() && out[k].merkle_hash@ == groups[gi].0@
    &&& forall|a: int, b: int| 0 <= a < b < out.len() ==> ws[a] >= ws[b]
}

/// Inserting the report of hash group `i` where its wasted bytes belong
/// keeps the reports in order.
proof fn lemma_insert_group(before: Seq<DupeFolderGroup>, wbefore: Seq<u128>, g: DupeFolderGroup, w: u128, j: int, groups: Seq<([u8; 32], Vec<usize>)>, i: int, fs: Seq<FileEntry>, config: FolderDedupConfig)
    requires
        reported(before, wbefore, groups, i, fs, config),
        0 <= i < groups.len(),
        forall|g1: int, g2: int| 0 <= g1 < g2 < groups.len() ==> (#[trigger] groups[g1]).0@ != (#[trigger] groups[g2]).0@,
        describes_group(g, fs, config),
        g.merkle_hash@ == groups[i].0@,
        w == wasted(g),
        0 <= j <= before.len(),
        forall|k: int| 0 <= k < j ==> (#[trigger] wbefore[k]) >= w,
        j < wbefore.len() ==> wbefore[j] < w,
    ensures
        reported(before.insert(j, g), wbefore.insert(j, w), groups, i + 1, fs, config),
{
    let out = before.insert(j, g);
    let ws = wbefore.insert(j, w);
    assert forall|k: int| 0 <= k < before.len() implies (#[trigger] before[k]).merkle_hash@ != g.merkle_hash@ by {
        let gi = choose|gi: int| 0 <= gi < i && before[k].merkle_hash@ == groups[gi].0@;
        assert(groups[gi].0@ != groups[i].0@);
    }
    assert forall|k: int| 0 <= k < out.len() implies (#[trigger] ws[k]) == wasted(out[k]) by {
        if k < j {
            assert(ws[k] == wbefore[k] && out[k] == before[k]);
        } else if k > j {
            assert(ws[k] == wbefore[k - 1] && out[k] == before[k - 1]);
        }
    }
    assert forall|k: int| 0 <= k < out.len() implies describes_group(#[trigger] out[k], fs, config) by {
        if k < j {
            assert(out[k] == before[k]);
        } else if k > j {
            assert(out[k] == before[k - 1]);
        }
    }
    assert forall|k: int| 0 <= k < out.len() implies exists|gi: int| 0 <= gi < i + 1 && (#[trigger] out[k]).merkle_hash@ == groups[gi].0@ by {
        if k < j {
            assert(out[k] == before[k]);
            let gi = choose|gi: int| 0 <= gi < i && before[k].merkle_hash@ == groups[gi].0@;
            assert(0 <= gi < i + 1 && out[k].merkle_hash@ == groups[gi].0@);
        } else if k > j {
            assert(out[k] == before[k - 1]);
            let gi = choose|gi: int| 0 <= gi < i && before[k - 1].merkle_hash@ == groups[gi].0@;
            assert(0 <= gi < i + 1 && out[k].merkle_hash@ == groups[gi].0@);
        } else {
            assert(out[k].merkle_hash@ == groups[i].0@);
        }
    }
    assert forall|a: int, b: int| 0 <= a < b < out.len() implies (#[trigger] out[a]).merkle_hash@ != (#[trigger] out[b]).merkle_hash@ by {
        let ea = if a < j { before[a] } else if a == j { g } else { before[a - 1] };
        let eb = if b < j { before[b] } else if b == j { g } else { before[b - 1] };
        assert(out[a] == ea && out[b] == eb);
    }
    assert forall|gi: int| 0 <= gi < i + 1 && (#[trigger] groups[gi]).1@.len() >= 2 implies exists|k: int| 0 <= k < out.len() && out[k].merkle_hash@ == groups[gi].0@ by {
        if gi < i {
            let k = choose|k: int| 0 <= k < before.len() && before[k].merkle_hash@ == groups[gi].0@;
            if k < j {
                assert(out[k] == before[k]);
            } else {
                assert(out[k + 1] == before[k]);
            }
        } else {
            assert(out[j].merkle_hash@ == groups[gi].0@);
        }
    }
    assert forall|a: int, b: int| 0 <= a < b < out.len() implies ws[a] >= ws[b] by {
        if b < j {
            assert(ws[a] == wbefore[a] && ws[b] == wbefore[b]);
        } else if b == j {
            assert(ws[a] == wbefore[a]);
        } else if a == j {
            assert(ws[b] == wbefore[b - 1]);
        } else if a < j {
            assert(ws[a] == wbefore[a] && ws[b] == wbefore[b - 1]);
        } else {
            assert(ws[a] == wbefore[a - 1] && ws[b] == wbefore[b - 1]);
        }
    }
}

/// Find groups of duplicate directories from a flat list of file entries.
///
/// Files are grouped by parent directory, then a bottom-up Merkle tree is
/// computed. Eligible directories (enough files and bytes) sharing the same
/// Merkle hash are reported together; groups come by wasted bytes, largest
/// first.
pub fn find_duplicate_folders(files: &[FileEntry], config: &FolderDedupConfig) -> (r: Vec<DupeFolderGroup>)
    requires
        all_sizes(files@) <= u64::MAX,
    ensures
        forall|k: int| 0 <= k < r@.len() ==> describes_group(#[trigger] r@[k], files@, *config),
        forall|a: int, b: int| 0 <= a < b < r@.len() ==> (#[trigger] r@[a]).merkle_hash@ != (#[trigger] r@[b]).merkle_hash@,
        forall|d1: (bool, Seq<Seq<char>>), d2: (bool, Seq<Seq<char>>)|
            #![trigger eligible(files@, *config, d1), eligible(files@, *config, d2)]
            eligible(files@, *config, d1) && eligible(files@, *config, d2) && d1 != d2 && merkle(files@, d1) == merkle(files@, d2)
                ==> exists|k: int| 0 <= k < r@.len() && (#[trigger] r@[k]).merkle_hash@ == merkle(files@, d1),
        forall|a: int, b: int| 0 <= a < b < r@.len() ==> wasted(#[trigger] r@[a]) >= wasted(#[trigger] r@[b]),
{
    if files.len() == 0 {
        let out: Vec<DupeFolderGroup> = Vec::new();
        return out;
    }
    let ghost fs = files@;
    let mut dirs = build_table(files);
    proof {
        lemma_table_tree(dirs@, fs);
    }
    compute_all_hashes(&mut dirs, Ghost(fs));
    let groups = collect_groups(&dirs, Ghost(fs), config);
    proof {
        assert(groups_ok(dirs@, fs, *config, groups@));
    }
    let mut out: Vec<DupeFolderGroup> = Vec::new();
    let mut ws: Vec<u128> = Vec::new();
    let mut i: usize = 0;
    while i < groups.len()
        invariant
            0 <= i <= groups@.len(),
            fs == files@,
            tree_ok(dirs@, fs),
            groups_ok(dirs@, fs, *config, groups@),
            reported(out@, ws@, groups@, i as int, fs, *config),
        decreases groups@.len() - i,
    {
        if groups[i].1.len() >= 2 {
            let g = report_group(&dirs, Ghost(fs), config, &groups, i);
            let ghost keys = choose|keys: Seq<(bool, Seq<Seq<char>>)>| group_keys(keys, g, fs, *config);
            let n = g.directories.len();
            proof {
                assert(n >= 2);
                assert(g.total_size * (n - 1) <= u64::MAX * usize::MAX) by (nonlinear_arith)
                    requires
                        n >= 2;
            }
            let w: u128 = (g.total_size as u128) * ((n - 1) as u128);
            let mut j: usize = 0;
            while j < ws.len() && ws[j] >= w
                invariant
                    0 <= j <= ws@.len(),
                    forall|k: int| 0 <= k < j ==> (#[trigger] ws@[k]) >= w,
                decreases ws@.len() - j,
            {
                j = j + 1;
            }
            let ghost before = out@;
            let ghost wbefore = ws@;
            out.insert(j, g);
            ws.insert(j, w);
            proof {
                assert(out@ == before.insert(j as int, g));
                assert(ws@ == wbefore.insert(j as int, w));
                lemma_insert_group(before, wbefore, g, w, j as int, groups@, i as int, fs, *config);
            }
        }
        i = i + 1;
    }
    proof {
        assert forall|d1: (bool, Seq<Seq<char>>), d2: (bool, Seq<Seq<char>>)|
            #![trigger eligible(files@, *config, d1), eligible(files@, *config, d2)]
            eligible(files@, *config, d1) && eligible(files@, *config, d2) && d1 != d2 && merkle(files@, d1) == merkle(files@, d2)
            implies exists|k: int| 0 <= k < out@.len() && (#[trigger] out@[k]).merkle_hash@ == merkle(files@, d1) by {
            let q1 = choose|q: int| 0 <= q < dirs@.len() && key_of(#[trigger] dirs@[q]) == d1;
            let q2 = choose|q: int| 0 <= q < dirs@.len() && key_of(#[trigger] dirs@[q]) == d2;
            let g1 = lemma_group_of(dirs@, fs, *config, groups@, q1);
            let g2 = lemma_group_of(dirs@, fs, *config, groups@, q2);
            lemma_same_hash(groups@, g1, g2, dirs@, fs, *config);
            let m = groups@[g1].1@;
            let a1 = choose|a: int| 0 <= a < m.len() && m[a] == q1 as usize;
            let a2 = choose|a: int| 0 <= a < m.len() && m[a] == q2 as usize;
            assert(a1 != a2);
            assert(m.len() >= 2);
        }
        assert forall|a: int, b: int| 0 <= a < b < out@.len() implies wasted(#[trigger] out@[a]) >= wasted(#[trigger] out@[b]) by {
            assert(ws@[a] == wasted(out@[a]) && ws@[b] == wasted(out@[b]));
        }
    }
    out
}

} // verus!
