//! The library's model of filesystem paths.
//!
//! A path is a character string in which `/` separates components, as
//! `std::path::Path` has it on Unix. A path is *rooted* when it starts with a
//! separator. Its components are the non-empty runs of characters between
//! separators.

use vstd::prelude::*;
use crate::text::slice_from;

verus! {

/// Whether `c` separates path components.
pub open spec fn is_sep(c: char) -> bool {
    c == '/'
}

/// Decides whether `c` separates path components.
pub fn is_separator(c: char) -> (r: bool)
    ensures
        r == is_sep(c),
{
    c == '/'
}

/// Whether `c` separates the components of a Windows path (`\` or `/`).
pub open spec fn is_win_sep(c: char) -> bool {
    c == '/' || c == '\\'
}

/// A path with every `\` turned into `/`, so that Windows-style paths split
/// at both separators.
pub open spec fn slashed(s: Seq<char>) -> Seq<char> {
    s.map_values(|c: char| if c == '\\' { '/' } else { c })
}

/// Turns every `\` into `/`.
pub fn to_slashes(v: &[char]) -> (r: Vec<char>)
    ensures
        r@ == slashed(v@),
{
    let mut r: Vec<char> = Vec::new();
    let mut i: usize = 0;
    while i < v.len()
        invariant
            0 <= i <= v@.len(),
            r@ == slashed(v@.take(i as int)),
        decreases v@.len() - i,
    {
        let c = v[i];
        r.push(if c == '\\' { '/' } else { c });
        proof {
            assert(slashed(v@.take(i + 1)) =~= slashed(v@.take(i as int)).push(if c == '\\' { '/' } else { c }));
        }
        i = i + 1;
    }
    proof {
        assert(v@.take(v@.len() as int) =~= v@);
    }
    r
}

/// Left-to-right split state after reading `s`: the finished components and the
/// component being read.
pub open spec fn split_state(s: Seq<char>) -> (Seq<Seq<char>>, Seq<char>)
    decreases s.len(),
{
    if s.len() == 0 {
        (seq![], seq![])
    } else {
        let (done, cur) = split_state(s.drop_last());
        let c = s.last();
        if is_sep(c) {
            if cur.len() > 0 {
                (done.push(cur), seq![])
            } else {
                (done, seq![])
            }
        } else {
            (done, cur.push(c))
        }
    }
}

/// The components of a path, in order.
pub open spec fn components(s: Seq<char>) -> Seq<Seq<char>> {
    let (done, cur) = split_state(s);
    if cur.len() > 0 {
        done.push(cur)
    } else {
        done
    }
}

/// Whether a path starts with a separator.
pub open spec fn is_rooted(s: Seq<char>) -> bool {
    s.len() > 0 && is_sep(s[0])
}

/// The component `.`, which `Path::components` drops except at the start
/// of a relative path.
pub open spec fn is_cur_dir(c: Seq<char>) -> bool {
    c == seq!['.']
}

/// The component `..`.
pub open spec fn is_parent_dir(c: Seq<char>) -> bool {
    c == seq!['.', '.']
}

/// The components that are not `.`.
pub open spec fn count_non_dots(c: Seq<Seq<char>>) -> nat
    decreases c.len(),
{
    if c.len() == 0 {
        0
    } else {
        count_non_dots(c.drop_last()) + if is_cur_dir(c.last()) {
            0nat
        } else {
            1nat
        }
    }
}

/// Number of components of a path as `Path::components` counts them: the
/// root counts as one; `.` is dropped, except as the first component of a
/// relative path.
pub open spec fn depth(s: Seq<char>) -> int {
    (if is_rooted(s) {
        1int
    } else {
        0int
    }) + count_non_dots(components(s)) + (if !is_rooted(s) && components(s).len() > 0 && is_cur_dir(
        components(s)[0],
    ) {
        1int
    } else {
        0int
    })
}

/// The components without the trailing `.` ones.
pub open spec fn drop_trailing_dots(c: Seq<Seq<char>>) -> Seq<Seq<char>>
    decreases c.len(),
{
    if c.len() > 0 && is_cur_dir(c.last()) {
        drop_trailing_dots(c.drop_last())
    } else {
        c
    }
}

/// The last component of a path, if it is a name (`Path::file_name`): `.`
/// components are passed over, and a path ending in `..` has none.
pub open spec fn file_name(s: Seq<char>) -> Option<Seq<char>> {
    let c = drop_trailing_dots(components(s));
    if c.len() > 0 && !is_parent_dir(c.last()) {
        Some(c.last())
    } else {
        None
    }
}

/// Dropping trailing `.` components keeps a prefix.
pub proof fn lemma_drop_trailing_dots_prefix(c: Seq<Seq<char>>)
    ensures
        drop_trailing_dots(c).len() <= c.len(),
        drop_trailing_dots(c) == c.take(drop_trailing_dots(c).len() as int),
    decreases c.len(),
{
    if c.len() > 0 && is_cur_dir(c.last()) {
        lemma_drop_trailing_dots_prefix(c.drop_last());
        assert(c.drop_last().take(drop_trailing_dots(c).len() as int) =~= c.take(drop_trailing_dots(c).len() as int));
    } else {
        assert(c.take(c.len() as int) =~= c);
    }
}

/// Count of the components that are not `.`: at most all of them.
proof fn lemma_count_non_dots_le(c: Seq<Seq<char>>)
    ensures
        count_non_dots(c) <= c.len(),
        c.len() > 0 && is_cur_dir(c[0]) ==> count_non_dots(c) < c.len(),
    decreases c.len(),
{
    if c.len() > 0 {
        lemma_count_non_dots_le(c.drop_last());
        if c.len() > 1 {
            assert(c.drop_last()[0] == c[0]);
        }
    }
}

/// Index of the last `.` in `name`, if any.
pub open spec fn last_dot(name: Seq<char>) -> Option<int>
    decreases name.len(),
{
    if name.len() == 0 {
        None
    } else if name.last() == '.' {
        Some(name.len() - 1)
    } else {
        last_dot(name.drop_last())
    }
}

/// The extension of a file name: what follows its last `.`, unless the name
/// has no `.` or its only `.` is its first character (`Path::extension`).
pub open spec fn name_extension(name: Seq<char>) -> Option<Seq<char>> {
    match last_dot(name) {
        Some(i) => if i == 0 {
            None
        } else {
            Some(name.skip(i + 1))
        },
        None => None,
    }
}

/// The extension of a path's last component.
pub open spec fn extension(s: Seq<char>) -> Option<Seq<char>> {
    match file_name(s) {
        Some(n) => name_extension(n),
        None => None,
    }
}

/// Splits a path into its components.
pub fn path_components(p: &[char]) -> (r: Vec<Vec<char>>)
    ensures
        r@.len() == components(p@).len(),
        forall|i: int| 0 <= i < r@.len() ==> #[trigger] r@[i]@ == components(p@)[i],
{
    let mut done: Vec<Vec<char>> = Vec::new();
    let mut cur: Vec<char> = Vec::new();
    let mut i: usize = 0;
    while i < p.len()
        invariant
            0 <= i <= p@.len(),
            split_state(p@.take(i as int)).0.len() == done@.len(),
            forall|k: int|
                0 <= k < done@.len() ==> #[trigger] done@[k]@ == split_state(p@.take(i as int)).0[k],
            cur@ == split_state(p@.take(i as int)).1,
        decreases p@.len() - i,
    {
        proof {
            assert(p@.take(i + 1).drop_last() =~= p@.take(i as int));
        }
        let c = p[i];
        if is_separator(c) {
            if cur.len() > 0 {
                done.push(cur);
                cur = Vec::new();
            } else {
                cur = Vec::new();
            }
        } else {
            cur.push(c);
        }
        i = i + 1;
    }
    proof {
        assert(p@.take(p@.len() as int) =~= p@);
    }
    if cur.len() > 0 {
        done.push(cur);
    }
    done
}

/// The components held as character vectors, viewed.
pub open spec fn comp_views(v: Seq<Vec<char>>) -> Seq<Seq<char>> {
    v.map_values(|c: Vec<char>| c@)
}

/// Whether a component is `.`.
fn is_dot_component(c: &Vec<char>) -> (r: bool)
    ensures
        r == is_cur_dir(c@),
{
    if c.len() == 1 && c[0] == '.' {
        assert(c@ =~= seq!['.']);
        true
    } else {
        false
    }
}

/// Number of components of a path as `Path::components` counts them.
pub fn path_depth_of(p: &[char]) -> (r: usize)
    ensures
        r == depth(p@),
{
    let comps = path_components(p);
    let rooted = p.len() > 0 && is_separator(p[0]);
    proof {
        assert(comp_views(comps@) =~= components(p@));
        lemma_components_len(p@);
        lemma_count_non_dots_le(comp_views(comps@));
    }
    let mut n: usize = 0;
    let mut i: usize = 0;
    while i < comps.len()
        invariant
            0 <= i <= comps@.len(),
            comps@.len() <= p@.len(),
            comp_views(comps@) == components(p@),
            n == count_non_dots(comp_views(comps@).take(i as int)),
            n <= i,
        decreases comps@.len() - i,
    {
        proof {
            let cv = comp_views(comps@);
            assert(cv.take(i + 1).drop_last() =~= cv.take(i as int));
            assert(cv.take(i + 1).last() == comps@[i as int]@);
        }
        if !is_dot_component(&comps[i]) {
            n = n + 1;
        }
        i = i + 1;
    }
    proof {
        assert(comp_views(comps@).take(comps@.len() as int) =~= comp_views(comps@));
    }
    if rooted {
        n + 1
    } else if comps.len() > 0 && is_dot_component(&comps[0]) {
        n + 1
    } else {
        n
    }
}

/// A path has at most as many components as characters.
pub proof fn lemma_components_len(s: Seq<char>)
    ensures
        components(s).len() + (if is_rooted(s) {
            1int
        } else {
            0int
        }) <= s.len(),
        split_state(s).0.len() + (if split_state(s).1.len() > 0 {
            1int
        } else {
            0int
        }) + (if is_rooted(s) {
            1int
        } else {
            0int
        }) <= s.len(),
    decreases s.len(),
{
    if s.len() > 1 {
        lemma_components_len(s.drop_last());
        assert(s.drop_last()[0] == s[0]);
        let (d, c) = split_state(s.drop_last());
        assert(split_state(s) == (if is_sep(s.last()) {
            if c.len() > 0 {
                (d.push(c), Seq::<char>::empty())
            } else {
                (d, Seq::<char>::empty())
            }
        } else {
            (d, c.push(s.last()))
        }));
    } else if s.len() == 1 {
        assert(split_state(s.drop_last()) == (Seq::<Seq<char>>::empty(), Seq::<char>::empty()));
    }
}

/// Components are never empty.
pub proof fn lemma_components_nonempty(s: Seq<char>)
    ensures
        forall|k: int| 0 <= k < split_state(s).0.len() ==> (#[trigger] split_state(s).0[k]).len() > 0,
        forall|k: int| 0 <= k < components(s).len() ==> (#[trigger] components(s)[k]).len() > 0,
    decreases s.len(),
{
    if s.len() > 0 {
        lemma_components_nonempty(s.drop_last());
        let (d, c) = split_state(s.drop_last());
        assert(split_state(s) == (if is_sep(s.last()) {
            if c.len() > 0 {
                (d.push(c), Seq::<char>::empty())
            } else {
                (d, Seq::<char>::empty())
            }
        } else {
            (d, c.push(s.last()))
        }));
        assert forall|k: int| 0 <= k < split_state(s).0.len() implies (#[trigger] split_state(s).0[k]).len() > 0 by {
            if k < d.len() {
                assert(split_state(s).0[k] == d[k]);
            }
        }
    }
    let (d, c) = split_state(s);
    assert forall|k: int| 0 <= k < components(s).len() implies (#[trigger] components(s)[k]).len() > 0 by {
        if k < d.len() {
            assert(components(s)[k] == d[k]);
        }
    }
}

/// A file name is never empty.
pub proof fn lemma_file_name_nonempty(s: Seq<char>)
    ensures
        file_name(s) matches Some(n) ==> n.len() > 0,
{
    lemma_components_nonempty(s);
    let c = components(s);
    lemma_drop_trailing_dots_prefix(c);
    let t = drop_trailing_dots(c);
    if t.len() > 0 {
        assert(t.last() == c[t.len() - 1]);
    }
}

/// The last component of a path, if it is a name.
pub fn path_file_name(p: &[char]) -> (r: Option<Vec<char>>)
    ensures
        match r {
            Some(n) => file_name(p@) == Some(n@),
            None => file_name(p@) is None,
        },
{
    let mut comps = path_components(p);
    proof {
        assert(comp_views(comps@) =~= components(p@));
    }
    loop
        invariant
            drop_trailing_dots(comp_views(comps@)) == drop_trailing_dots(components(p@)),
        ensures
            comp_views(comps@) == drop_trailing_dots(components(p@)),
        decreases comps@.len(),
    {
        if comps.len() == 0 {
            break;
        }
        let last = comps.len() - 1;
        if !is_dot_component(&comps[last]) {
            proof {
                assert(comp_views(comps@).last() == comps@[last as int]@);
            }
            break;
        }
        let ghost before = comps@;
        comps.pop();
        proof {
            assert(comp_views(comps@) =~= comp_views(before).drop_last());
            assert(comp_views(before).last() == before[last as int]@);
        }
    }
    let ghost full = comps@;
    match comps.pop() {
        Some(n) => {
            proof {
                assert(comp_views(full).last() == n@);
            }
            if n.len() == 2 && n[0] == '.' && n[1] == '.' {
                assert(n@ =~= seq!['.', '.']);
                None
            } else {
                Some(n)
            }
        },
        None => None,
    }
}

/// Position of the last `.` in a name.
pub fn find_last_dot(name: &[char]) -> (r: Option<usize>)
    ensures
        match r {
            Some(i) => last_dot(name@) == Some(i as int) && i < name@.len() && name@[i as int]
                == '.',
            None => last_dot(name@) is None,
        },
{
    let mut k = name.len();
    proof {
        assert(name@.take(name@.len() as int) =~= name@);
    }
    while k > 0 && name[k - 1] != '.'
        invariant
            k <= name@.len(),
            last_dot(name@.take(k as int)) == last_dot(name@),
        decreases k,
    {
        proof {
            assert(name@.take(k as int).drop_last() =~= name@.take(k - 1));
        }
        k = k - 1;
    }
    if k == 0 {
        None
    } else {
        proof {
            assert(name@.take(k as int).last() == '.');
        }
        Some(k - 1)
    }
}

/// The extension of a file name.
pub fn name_extension_of(name: &[char]) -> (r: Option<Vec<char>>)
    ensures
        match r {
            Some(e) => name_extension(name@) == Some(e@),
            None => name_extension(name@) is None,
        },
{
    let n = name.len();
    match find_last_dot(name) {
        Some(i) => if i == 0 {
            None
        } else {
            Some(slice_from(name, i + 1))
        },
        None => None,
    }
}

/// The extension of a path's last component (`Path::extension`).
pub fn path_extension(p: &[char]) -> (r: Option<Vec<char>>)
    ensures
        match r {
            Some(e) => extension(p@) == Some(e@),
            None => extension(p@) is None,
        },
{
    match path_file_name(p) {
        Some(n) => name_extension_of(n.as_slice()),
        None => None,
    }
}


// ───────────────────────────── parent ─────────────────────────────

/// Length of what precedes a path's body: the root `/`, or the `.` that
/// starts a relative path (`./a`, `.`), which `Path` keeps as a component.
pub open spec fn body_start(s: Seq<char>) -> int {
    if s.len() > 0 && is_sep(s[0]) {
        1
    } else if s.len() > 0 && s[0] == '.' && (s.len() == 1 || is_sep(s[1])) {
        1
    } else {
        0
    }
}

/// `s` (of which the first `b` characters are kept) without trailing
/// separators and trailing `.` components.
pub open spec fn trim_right(s: Seq<char>, b: int) -> Seq<char>
    decreases s.len(),
{
    if s.len() > b && b >= 0 && (is_sep(s.last()) || (s.last() == '.' && (s.len() - 1 == b || is_sep(s[s.len() - 2])))) {
        trim_right(s.drop_last(), b)
    } else {
        s
    }
}

/// Position where the last component of `t` starts: after its last
/// separator at or beyond `b`, else at `b`.
pub open spec fn last_start(t: Seq<char>, b: int) -> int
    decreases t.len(),
{
    if t.len() <= b || t.len() == 0 {
        b
    } else if is_sep(t.last()) {
        t.len() as int
    } else {
        last_start(t.drop_last(), b)
    }
}

/// The parent of a path, as `Path::parent` gives it: the path without its
/// last component (and the separators and `.` components before it); `None`
/// for the root and the empty path.
pub open spec fn path_parent(s: Seq<char>) -> Option<Seq<char>> {
    let b = body_start(s);
    let t = trim_right(s, b);
    if t.len() <= b {
        if b == 1 && !is_sep(s[0]) {
            Some(Seq::<char>::empty())
        } else {
            None
        }
    } else {
        Some(trim_right(t.take(last_start(t, b)), b))
    }
}

/// Length of `v[..n]` once trailing separators and `.` components (beyond
/// the first `b` characters) are dropped.
fn trim_right_len(v: &[char], n: usize, b: usize) -> (k: usize)
    requires
        n <= v@.len(),
        b <= 1,
    ensures
        k <= n,
        v@.take(k as int) == trim_right(v@.take(n as int), b as int),
    decreases n,
{
    if n > b && (v[n - 1] == '/' || (v[n - 1] == '.' && (n - 1 == b || v[n - 2] == '/'))) {
        proof {
            assert(v@.take(n as int).drop_last() =~= v@.take(n - 1));
            assert(v@.take(n as int).last() == v@[n - 1]);
            if n >= 2 {
                assert(v@.take(n as int)[n - 2] == v@[n - 2]);
            }
        }
        trim_right_len(v, n - 1, b)
    } else {
        proof {
            if n > b {
                assert(v@.take(n as int).last() == v@[n - 1]);
                if n >= 2 {
                    assert(v@.take(n as int)[n - 2] == v@[n - 2]);
                }
            }
        }
        n
    }
}

/// Where the last component of `v[..n]` starts.
fn last_start_of(v: &[char], n: usize, b: usize) -> (k: usize)
    requires
        n <= v@.len(),
        b <= 1,
    ensures
        k as int == last_start(v@.take(n as int), b as int),
        b <= k <= (if n > b { n } else { b }),
    decreases n,
{
    if n <= b || n == 0 {
        b
    } else if v[n - 1] == '/' {
        proof {
            assert(v@.take(n as int).last() == v@[n - 1]);
        }
        n
    } else {
        proof {
            assert(v@.take(n as int).last() == v@[n - 1]);
            assert(v@.take(n as int).drop_last() =~= v@.take(n - 1));
        }
        last_start_of(v, n - 1, b)
    }
}

/// The parent of a path (`Path::parent`).
pub fn parent_path(p: &[char]) -> (r: Option<Vec<char>>)
    ensures
        match r {
            Some(q) => path_parent(p@) == Some(q@),
            None => path_parent(p@) is None,
        },
{
    let n = p.len();
    let b: usize = if n > 0 && p[0] == '/' {
        1
    } else if n > 0 && p[0] == '.' && (n == 1 || p[1] == '/') {
        1
    } else {
        0
    };
    proof {
        assert(p@.take(n as int) =~= p@);
    }
    let t = trim_right_len(p, n, b);
    if t <= b {
        if b == 1 && p[0] != '/' {
            Some(Vec::new())
        } else {
            None
        }
    } else {
        let ls = last_start_of(p, t, b);
        proof {
            assert(p@.take(t as int).take(ls as int) =~= p@.take(ls as int));
        }
        let k = trim_right_len(p, ls, b);
        let mut out: Vec<char> = Vec::new();
        let mut i: usize = 0;
        while i < k
            invariant
                0 <= i <= k,
                k <= p@.len(),
                out@ == p@.take(i as int),
            decreases k - i,
        {
            out.push(p[i]);
            proof {
                assert(p@.take(i + 1) =~= p@.take(i as int).push(p@[i as int]));
            }
            i = i + 1;
        }
        Some(out)
    }
}

} // verus!
