//! Path reconstruction from an MFT topology (file reference number → parent
//! and name).

use vstd::prelude::*;
use std::collections::HashMap;
use crate::indexer::windows::{FILE_ATTRIBUTE_DIRECTORY, FILE_ATTRIBUTE_REPARSE_POINT, MIN_USER_FRN};
use crate::path::is_win_sep;
use crate::text::{chars_of, string_of};

verus! {

broadcast use {vstd::string::group_string_axioms, vstd::std_specs::hash::group_hash_axioms};

/// Topology entry from MFT enumeration (no sizes).
#[derive(Debug, Clone)]
pub struct TopoEntry {
    /// File Reference Number.
    pub fid: u64,
    /// Parent directory FRN.
    pub parent_fid: u64,
    /// Filename.
    pub name: String,
    /// Whether this is a directory.
    pub is_dir: bool,
    /// Win32 file attributes.
    pub attributes: u32,
}

/// A parent map seen through the names' characters.
pub open spec fn names_view(m: Map<u64, (u64, String)>) -> Map<u64, (u64, Seq<char>)> {
    Map::new(|k: u64| m.contains_key(k), |k: u64| (m[k].0, m[k].1@))
}

/// FRN → (parent FRN, name) for the entries, a later entry overriding an
/// earlier one with the same FRN.
pub open spec fn parent_map_of(entries: Seq<TopoEntry>) -> Map<u64, (u64, Seq<char>)>
    decreases entries.len(),
{
    if entries.len() == 0 {
        Map::empty()
    } else {
        let e = entries.last();
        parent_map_of(entries.drop_last()).insert(e.fid, (e.parent_fid, e.name@))
    }
}

/// Build a parent-FRN lookup map from topology entries.
pub fn build_parent_map(entries: &[TopoEntry]) -> (r: HashMap<u64, (u64, String)>)
    ensures
        names_view(r@) == parent_map_of(entries@),
{
    let mut m: HashMap<u64, (u64, String)> = HashMap::new();
    let mut i: usize = 0;
    while i < entries.len()
        invariant
            0 <= i <= entries@.len(),
            names_view(m@) == parent_map_of(entries@.take(i as int)),
        decreases entries@.len() - i,
    {
        let e = &entries[i];
        m.insert(e.fid, (e.parent_fid, e.name.clone()));
        proof {
            assert(entries@.take(i + 1).drop_last() =~= entries@.take(i as int));
            assert(names_view(m@) =~= parent_map_of(entries@.take(i + 1)));
        }
        i = i + 1;
    }
    proof {
        assert(entries@.take(entries@.len() as int) =~= entries@);
    }
    m
}

/// The separator a path uses: `\` if it holds one, `/` otherwise.
pub open spec fn separator_of(base: Seq<char>) -> char {
    if base.contains('\\') {
        '\\'
    } else {
        '/'
    }
}

/// `base` with `name` appended as a new component (`PathBuf::push`): a name
/// starting with a separator replaces the path; otherwise a separator is put
/// between them unless `base` is empty or already ends with one.
pub open spec fn push_component(base: Seq<char>, name: Seq<char>) -> Seq<char> {
    if name.len() > 0 && is_win_sep(name[0]) {
        name
    } else if base.len() == 0 {
        name
    } else if is_win_sep(base.last()) {
        base + name
    } else {
        base + seq![separator_of(base)] + name
    }
}

/// `base` with the names appended in order.
pub open spec fn push_all(base: Seq<char>, names: Seq<Seq<char>>) -> Seq<char>
    decreases names.len(),
{
    if names.len() == 0 {
        base
    } else {
        push_all(push_component(base, names[0]), names.drop_first())
    }
}

/// The names met walking up from `cur` to a root (an entry that is its own
/// parent), the root's own name last, within `fuel` steps.
pub open spec fn chain_names(m: Map<u64, (u64, Seq<char>)>, cur: u64, fuel: nat) -> Option<Seq<Seq<char>>>
    decreases fuel,
{
    if fuel == 0 || !m.contains_key(cur) {
        None
    } else if m[cur].0 == cur {
        Some(seq![m[cur].1])
    } else {
        match chain_names(m, m[cur].0, (fuel - 1) as nat) {
            Some(rest) => Some(seq![m[cur].1] + rest),
            None => None,
        }
    }
}

/// `names` in reverse order.
pub open spec fn reversed(names: Seq<Seq<char>>) -> Seq<Seq<char>> {
    Seq::new(names.len(), |i: int| names[names.len() - 1 - i])
}

/// Walk bound of path reconstruction.
pub const MAX_CHAIN: u64 = 4096;

/// Whether `c` separates path components.
fn is_separator_char(c: char) -> (r: bool)
    ensures
        r == is_win_sep(c),
{
    c == '/' || c == '\\'
}

/// Appends `name` to `base` as a new component.
pub fn push_name(base: &mut Vec<char>, name: &[char])
    ensures
        final(base)@ == push_component(old(base)@, name@),
{
    if name.len() > 0 && is_separator_char(name[0]) {
        base.clear();
    } else if base.len() == 0 {
    } else if is_separator_char(base[base.len() - 1]) {
    } else {
        let mut has_backslash = false;
        let mut k: usize = 0;
        while k < base.len()
            invariant
                0 <= k <= base@.len(),
                has_backslash == exists|j: int| 0 <= j < k && base@[j] == '\\',
            decreases base@.len() - k,
        {
            if base[k] == '\\' {
                has_backslash = true;
            }
            k = k + 1;
        }
        proof {
            if base@.contains('\\') {
                let j = choose|j: int| 0 <= j < base@.len() && base@[j] == '\\';
            }
        }
        if has_backslash {
            base.push('\\');
        } else {
            base.push('/');
        }
    }
    let ghost mid = base@;
    let mut i: usize = 0;
    while i < name.len()
        invariant
            0 <= i <= name@.len(),
            base@ == mid + name@.take(i as int),
        decreases name@.len() - i,
    {
        base.push(name[i]);
        proof {
            assert(name@.take(i + 1) =~= name@.take(i as int).push(name@[i as int]));
        }
        i = i + 1;
    }
    proof {
        assert(name@.take(name@.len() as int) =~= name@);
        assert(Seq::<char>::empty() + name@ =~= name@);
    }
}

/// Reconstruct the full path of `fid` by walking up its parent chain (at most
/// 4096 steps) to the root, then appending the names from the root down to
/// `volume_root`. `None` when the chain breaks or is too long.
pub fn reconstruct_path(fid: u64, parent_map: &HashMap<u64, (u64, String)>, volume_root: &str) -> (r: Option<String>)
    ensures
        match chain_names(names_view(parent_map@), fid, MAX_CHAIN as nat) {
            Some(names) => r matches Some(p) && p@ == push_all(volume_root@, reversed(names)),
            None => r is None,
        },
{
    let ghost m = names_view(parent_map@);
    let mut components: Vec<Vec<char>> = Vec::new();
    let mut current = fid;
    let mut reached_root = false;
    let mut steps: u64 = 0;
    while steps < MAX_CHAIN
        invariant_except_break
            !reached_root,
            chain_names(m, fid, MAX_CHAIN as nat) == match chain_names(m, current, (MAX_CHAIN - steps) as nat) {
                Some(rest) => Some(components@.map_values(|c: Vec<char>| c@) + rest),
                None => None::<Seq<Seq<char>>>,
            },
        invariant
            m == names_view(parent_map@),
            0 <= steps <= MAX_CHAIN,
        ensures
            reached_root ==> chain_names(m, fid, MAX_CHAIN as nat) == Some(components@.map_values(|c: Vec<char>| c@)),
            !reached_root ==> chain_names(m, fid, MAX_CHAIN as nat) is None,
        decreases MAX_CHAIN - steps,
    {
        match parent_map.get(&current) {
            Some(entry) => {
                let parent = entry.0;
                let name = chars_of(entry.1.as_str());
                let ghost before = components@.map_values(|c: Vec<char>| c@);
                components.push(name);
                proof {
                    assert(components@.map_values(|c: Vec<char>| c@) =~= before.push(m[current].1));
                }
                if parent == current {
                    reached_root = true;
                    proof {
                        assert(before.push(m[current].1) =~= before + seq![m[current].1]);
                    }
                    break;
                }
                proof {
                    let f = (MAX_CHAIN - steps) as nat;
                    match chain_names(m, parent, (f - 1) as nat) {
                        Some(rest) => {
                            assert(before + (seq![m[current].1] + rest) =~= before.push(m[current].1) + rest);
                        },
                        None => {},
                    }
                }
                current = parent;
            },
            None => {
                break;
            },
        }
        steps = steps + 1;
    }
    if !reached_root {
        return None;
    }
    let ghost names = components@.map_values(|c: Vec<char>| c@);
    let mut path: Vec<char> = chars_of(volume_root);
    let mut k: usize = components.len();
    proof {
        assert(reversed(names).skip(0) =~= reversed(names));
    }
    while k > 0
        invariant
            0 <= k <= components@.len(),
            names == components@.map_values(|c: Vec<char>| c@),
            push_all(volume_root@, reversed(names)) == push_all(path@, reversed(names).skip(components@.len() - k)),
        decreases k,
    {
        let ghost j = components@.len() - k;
        proof {
            assert(reversed(names).skip(j)[0] == names[k - 1]);
            assert(reversed(names).skip(j).drop_first() =~= reversed(names).skip(j + 1));
        }
        push_name(&mut path, components[k - 1].as_slice());
        k = k - 1;
    }
    proof {
        assert(reversed(names).skip(components@.len() as int) =~= Seq::<Seq<char>>::empty());
    }
    Some(string_of(path.as_slice()))
}

/// The names met walking up from `cur` to a root (an entry that is its own
/// parent), the root's own name left out, within `fuel` steps.
pub open spec fn root_chain(m: Map<u64, (u64, Seq<char>)>, cur: u64, fuel: nat) -> Option<Seq<Seq<char>>>
    decreases fuel,
{
    if fuel == 0 || !m.contains_key(cur) {
        None
    } else if m[cur].0 == cur {
        Some(seq![])
    } else {
        match root_chain(m, m[cur].0, (fuel - 1) as nat) {
            Some(rest) => Some(seq![m[cur].1] + rest),
            None => None,
        }
    }
}

/// `p` is the path of `f` below `root`: some walk from `f` reaches a root,
/// and `p` appends the names met, from the root down.
pub open spec fn is_path_of(m: Map<u64, (u64, Seq<char>)>, root: Seq<char>, f: u64, p: Seq<char>) -> bool {
    exists|fuel: nat| #[trigger] root_chain(m, f, fuel) is Some && p == push_all(root, reversed(root_chain(m, f, fuel)->0))
}

/// Every cached path is the path of its fid.
pub open spec fn cache_sound(m: Map<u64, (u64, Seq<char>)>, root: Seq<char>, cache: Map<u64, String>) -> bool {
    forall|f: u64| #[trigger] cache.contains_key(f) ==> is_path_of(m, root, f, cache[f]@)
}

/// Appending one more name at the end of the names.
proof fn lemma_push_all_push(base: Seq<char>, names: Seq<Seq<char>>, x: Seq<char>)
    ensures
        push_all(base, names.push(x)) == push_component(push_all(base, names), x),
    decreases names.len(),
{
    if names.len() > 0 {
        assert(names.push(x)[0] == names[0]);
        assert(names.push(x).drop_first() =~= names.drop_first().push(x));
        lemma_push_all_push(push_component(base, names[0]), names.drop_first(), x);
    } else {
        assert(names.push(x)[0] == x);
        assert(names.push(x).drop_first() =~= Seq::<Seq<char>>::empty());
        assert(push_all(push_component(base, x), Seq::<Seq<char>>::empty()) == push_component(base, x));
    }
}

/// The path of a child is its parent's path with its name appended.
proof fn lemma_child_path(m: Map<u64, (u64, Seq<char>)>, root: Seq<char>, c: u64, pp: Seq<char>)
    requires
        m.contains_key(c),
        m[c].0 != c,
        is_path_of(m, root, m[c].0, pp),
    ensures
        is_path_of(m, root, c, push_component(pp, m[c].1)),
{
    let p = m[c].0;
    let n = choose|fuel: nat| #[trigger] root_chain(m, p, fuel) is Some && pp == push_all(root, reversed(root_chain(m, p, fuel)->0));
    let ns = root_chain(m, p, n)->0;
    assert(root_chain(m, c, n + 1) == Some(seq![m[c].1] + ns));
    assert(reversed(seq![m[c].1] + ns) =~= reversed(ns).push(m[c].1));
    lemma_push_all_push(root, reversed(ns), m[c].1);
    assert(root_chain(m, c, n + 1) is Some && push_component(pp, m[c].1) == push_all(root, reversed(root_chain(m, c, n + 1)->0)));
}

/// A root's path is the volume root.
proof fn lemma_root_path(m: Map<u64, (u64, Seq<char>)>, root: Seq<char>, c: u64)
    requires
        m.contains_key(c),
        m[c].0 == c,
    ensures
        is_path_of(m, root, c, root),
{
    assert(root_chain(m, c, 1) == Some(Seq::<Seq<char>>::empty()));
    assert(reversed(Seq::<Seq<char>>::empty()) =~= Seq::<Seq<char>>::empty());
    assert(root_chain(m, c, 1) is Some && root == push_all(root, reversed(root_chain(m, c, 1)->0)));
}

/// The link `j` of a walk: node `j` is in the map, not a root, named as
/// recorded, with parent the next node (or `current` after the last).
pub open spec fn chain_linked(m: Map<u64, (u64, Seq<char>)>, chain: Seq<(u64, Vec<char>)>, current: u64) -> bool {
    forall|j: int| 0 <= j < chain.len() ==> {
        let f = (#[trigger] chain[j]).0;
        &&& m.contains_key(f)
        &&& m[f].0 != f
        &&& m[f].1 == chain[j].1@
        &&& m[f].0 == (if j + 1 < chain.len() {
            chain[j + 1].0
        } else {
            current
        })
    }
}

/// Every root of the map (an entry that is its own parent) has an empty name.
pub open spec fn roots_unnamed(m: Map<u64, (u64, Seq<char>)>) -> bool {
    forall|k: u64| #[trigger] m.contains_key(k) && m[k].0 == k ==> m[k].1.len() == 0
}

/// With unnamed roots, the names of a walk are those up to the root, then
/// the root's empty name.
proof fn lemma_chain_names_root_chain(m: Map<u64, (u64, Seq<char>)>, c: u64, fuel: nat)
    requires
        roots_unnamed(m),
    ensures
        chain_names(m, c, fuel) == (match root_chain(m, c, fuel) {
            Some(ns) => Some(ns.push(Seq::<char>::empty())),
            None => None,
        }),
    decreases fuel,
{
    if fuel > 0 && m.contains_key(c) {
        if m[c].0 == c {
            assert(m[c].1 =~= Seq::<char>::empty());
            assert(seq![m[c].1] =~= Seq::<Seq<char>>::empty().push(Seq::<char>::empty()));
        } else {
            lemma_chain_names_root_chain(m, m[c].0, (fuel - 1) as nat);
            if let Some(rest) = root_chain(m, m[c].0, (fuel - 1) as nat) {
                assert(seq![m[c].1] + rest.push(Seq::<char>::empty()) =~= (seq![m[c].1] + rest).push(Seq::<char>::empty()));
            }
        }
    }
}

/// A walk that reaches a root in `fuel` steps reaches it, with the same
/// names, given any more.
proof fn lemma_root_chain_more_fuel(m: Map<u64, (u64, Seq<char>)>, c: u64, fuel: nat, more: nat)
    requires
        root_chain(m, c, fuel) is Some,
        fuel <= more,
    ensures
        root_chain(m, c, more) == root_chain(m, c, fuel),
    decreases fuel,
{
    if m[c].0 != c {
        lemma_root_chain_more_fuel(m, m[c].0, (fuel - 1) as nat, (more - 1) as nat);
    }
}

/// A walk that reaches a root takes one more step than the names it meets.
proof fn lemma_root_chain_len(m: Map<u64, (u64, Seq<char>)>, c: u64, fuel: nat)
    requires
        root_chain(m, c, fuel) is Some,
    ensures
        root_chain(m, c, (root_chain(m, c, fuel)->0.len() + 1) as nat) == root_chain(m, c, fuel),
    decreases fuel,
{
    if m[c].0 != c {
        lemma_root_chain_len(m, m[c].0, (fuel - 1) as nat);
    }
}

/// Appending the empty name first changes nothing once a real name follows.
proof fn lemma_push_empty_first(root: Seq<char>, names: Seq<Seq<char>>)
    requires
        names.len() > 0,
    ensures
        push_all(push_component(root, Seq::<char>::empty()), names) == push_all(root, names),
{
    let r2 = push_component(root, Seq::<char>::empty());
    let n0 = names[0];
    if !(n0.len() > 0 && is_win_sep(n0[0])) && root.len() > 0 && !is_win_sep(root.last()) {
        assert(r2 =~= root + seq![separator_of(root)]);
        assert(is_win_sep(r2.last()));
        assert(r2 + n0 =~= root + seq![separator_of(root)] + n0);
    } else if !(n0.len() > 0 && is_win_sep(n0[0])) && root.len() > 0 {
        assert(r2 =~= root);
    }
    assert(push_component(r2, n0) == push_component(root, n0));
}

/// The memoised paths agree with walking each fid alone: when every root of
/// the map is unnamed and the walk from `f` meets fewer than `MAX_CHAIN`
/// names, `f` has a memoised path exactly when the lone walk finds one, and
/// any path of `f` (as the memoised builder records it) is the one the lone
/// walk builds. (For a root itself, the lone walk appends its empty name and
/// ends the volume root with a separator, so the two agree only when the
/// volume root is empty or already ends with one.)
pub proof fn lemma_cached_agrees(m: Map<u64, (u64, Seq<char>)>, root: Seq<char>, f: u64, p: Seq<char>)
    requires
        roots_unnamed(m),
        forall|fuel: nat| #[trigger] root_chain(m, f, fuel) matches Some(ns) ==> ns.len() < MAX_CHAIN,
        !(m.contains_key(f) && m[f].0 == f) || root.len() == 0 || is_win_sep(root.last()),
    ensures
        (chain_names(m, f, MAX_CHAIN as nat) is Some) == (root_chain(m, f, MAX_CHAIN as nat) is Some),
        is_path_of(m, root, f, p) ==> (chain_names(m, f, MAX_CHAIN as nat) matches Some(names) && p == push_all(
            root,
            reversed(names),
        )),
{
    lemma_chain_names_root_chain(m, f, MAX_CHAIN as nat);
    if is_path_of(m, root, f, p) {
        let n = choose|fuel: nat| #[trigger] root_chain(m, f, fuel) is Some && p == push_all(root, reversed(root_chain(m, f, fuel)->0));
        let ns = root_chain(m, f, n)->0;
        lemma_root_chain_len(m, f, n);
        assert(ns.len() < MAX_CHAIN);
        lemma_root_chain_more_fuel(m, f, (ns.len() + 1) as nat, MAX_CHAIN as nat);
        let names = ns.push(Seq::<char>::empty());
        assert(reversed(names) =~= seq![Seq::<char>::empty()] + reversed(ns));
        assert(reversed(names)[0] == Seq::<char>::empty());
        assert(reversed(names).drop_first() =~= reversed(ns));
        assert(root_chain(m, f, MAX_CHAIN as nat) == Some(ns));
        assert(chain_names(m, f, MAX_CHAIN as nat) == Some(names));
        assert(push_all(root, reversed(names)) == push_all(push_component(root, Seq::<char>::empty()), reversed(ns)));
        if ns.len() > 0 {
            lemma_push_empty_first(root, reversed(ns));
        } else {
            assert(m[f].0 == f);
            assert(reversed(ns) =~= Seq::<Seq<char>>::empty());
            if root.len() > 0 {
                assert(push_component(root, Seq::<char>::empty()) =~= root);
            }
        }
    }
}

/// Every walk that reaches a root meets fewer than `MAX_CHAIN` names.
pub open spec fn chains_bounded(m: Map<u64, (u64, Seq<char>)>) -> bool {
    forall|f: u64, fuel: nat| #[trigger] root_chain(m, f, fuel) matches Some(ns) ==> ns.len() < MAX_CHAIN
}

/// The paths of the memoised builder, viewed.
pub open spec fn paths_view(r: Map<u64, String>) -> Map<u64, Seq<char>> {
    r.map_values(|s: String| s@)
}

/// What `reconstruct_paths_cached` promises of its result `r` for `fids`.
pub open spec fn cached_result(m: Map<u64, (u64, Seq<char>)>, root: Seq<char>, fids: Seq<u64>, r: Map<u64, Seq<char>>) -> bool {
    &&& forall|f: u64| #[trigger] r.contains_key(f) ==> fids.contains(f) && is_path_of(m, root, f, r[f])
    &&& forall|k: int| 0 <= k < fids.len() && root_chain(m, #[trigger] fids[k], MAX_CHAIN as nat) is Some ==> r.contains_key(fids[k])
}

/// The two reconstructions agree: when every root is unnamed and no walk
/// meets `MAX_CHAIN` names, the memoised paths of `fids` are exactly the
/// paths `reconstruct_path` builds for them, one by one: a fid gets a path
/// from the one exactly when it gets one from the other (none for orphans
/// and cycles), the same path, and no key outside `fids`. (A root entry
/// itself agrees only when the volume root is empty or ends with a
/// separator: alone it gets the volume root with a separator appended.)
pub proof fn lemma_reconstructions_agree(m: Map<u64, (u64, Seq<char>)>, root: Seq<char>, fids: Seq<u64>, r: Map<u64, Seq<char>>)
    requires
        roots_unnamed(m),
        chains_bounded(m),
        cached_result(m, root, fids, r),
    ensures
        forall|f: u64| r.contains_key(f) ==> fids.contains(f),
        forall|k: int|
            0 <= k < fids.len() && (!(m.contains_key(fids[k]) && m[fids[k]].0 == fids[k]) || root.len() == 0 || is_win_sep(
                root.last(),
            )) ==> match chain_names(m, #[trigger] fids[k], MAX_CHAIN as nat) {
                Some(names) => r.contains_key(fids[k]) && r[fids[k]] == push_all(root, reversed(names)),
                None => !r.contains_key(fids[k]),
            },
{
    assert forall|k: int|
        0 <= k < fids.len() && (!(m.contains_key(fids[k]) && m[fids[k]].0 == fids[k]) || root.len() == 0 || is_win_sep(
            root.last(),
        )) implies match chain_names(m, #[trigger] fids[k], MAX_CHAIN as nat) {
            Some(names) => r.contains_key(fids[k]) && r[fids[k]] == push_all(root, reversed(names)),
            None => !r.contains_key(fids[k]),
        } by {
        let f = fids[k];
        let p = if r.contains_key(f) { r[f] } else { Seq::<char>::empty() };
        lemma_cached_agrees(m, root, f, p);
    }
}

/// Path of `fid` with a memo of the paths already built: walk up until a
/// cached node or a root, then build the paths back down, caching each.
fn reconstruct_path_memo(fid: u64, parent_map: &HashMap<u64, (u64, String)>, volume_root: &str, cache: &mut HashMap<u64, String>) -> (r: Option<String>)
    requires
        cache_sound(names_view(parent_map@), volume_root@, old(cache)@),
    ensures
        cache_sound(names_view(parent_map@), volume_root@, final(cache)@),
        r matches Some(p) ==> is_path_of(names_view(parent_map@), volume_root@, fid, p@),
        root_chain(names_view(parent_map@), fid, MAX_CHAIN as nat) is Some ==> r is Some,
{
    let ghost m = names_view(parent_map@);
    let ghost root = volume_root@;
    match cache.get(&fid) {
        Some(c) => {
            return Some(c.clone());
        },
        None => {},
    }
    let mut chain: Vec<(u64, Vec<char>)> = Vec::new();
    let mut current = fid;
    let mut base: Option<String> = None;
    let mut steps: u64 = 0;
    while steps < MAX_CHAIN
        invariant_except_break
            base is None,
            root_chain(m, fid, MAX_CHAIN as nat) is Some ==> root_chain(m, current, (MAX_CHAIN - steps) as nat) is Some,
            chain@.len() == steps,
        invariant
            0 <= steps <= MAX_CHAIN,
            m == names_view(parent_map@),
            root == volume_root@,
            cache_sound(m, root, cache@),
            chain_linked(m, chain@, current),
            chain@.len() == 0 ==> current == fid,
            chain@.len() > 0 ==> chain@[0].0 == fid,
        ensures
            base matches Some(b) ==> is_path_of(m, root, current, b@),
            base is None ==> root_chain(m, fid, MAX_CHAIN as nat) is None,
        decreases MAX_CHAIN - steps,
    {
        match cache.get(&current) {
            Some(c) => {
                base = Some(c.clone());
                break;
            },
            None => {},
        }
        match parent_map.get(&current) {
            Some(entry) => {
                let parent = entry.0;
                if parent == current {
                    proof {
                        lemma_root_path(m, root, current);
                    }
                    base = Some(volume_root.to_string());
                    break;
                }
                let name = chars_of(entry.1.as_str());
                let ghost before = chain@;
                chain.push((current, name));
                proof {
                    assert forall|j: int| 0 <= j < chain@.len() implies {
                        let f = (#[trigger] chain@[j]).0;
                        &&& m.contains_key(f)
                        &&& m[f].0 != f
                        &&& m[f].1 == chain@[j].1@
                        &&& m[f].0 == (if j + 1 < chain@.len() {
                            chain@[j + 1].0
                        } else {
                            parent
                        })
                    } by {
                        if j < before.len() {
                            assert(chain@[j] == before[j]);
                            if j + 1 < before.len() {
                                assert(chain@[j + 1] == before[j + 1]);
                            }
                        }
                    }
                }
                current = parent;
            },
            None => {
                break;
            },
        }
        steps = steps + 1;
    }
    let b = match base {
        Some(b) => b,
        None => {
            return None;
        },
    };
    let mut path: Vec<char> = chars_of(b.as_str());
    let mut k: usize = chain.len();
    while k > 0
        invariant
            0 <= k <= chain@.len(),
            m == names_view(parent_map@),
            root == volume_root@,
            cache_sound(m, root, cache@),
            chain_linked(m, chain@, current),
            chain@.len() == 0 ==> current == fid,
            chain@.len() > 0 ==> chain@[0].0 == fid,
            is_path_of(m, root, if k < chain@.len() { chain@[k as int].0 } else { current }, path@),
        decreases k,
    {
        let f = chain[k - 1].0;
        proof {
            assert(m[f].0 == (if k < chain@.len() { chain@[k as int].0 } else { current }));
            lemma_child_path(m, root, f, path@);
        }
        push_name(&mut path, chain[k - 1].1.as_slice());
        let s = string_of(path.as_slice());
        cache.insert(f, s);
        proof {
            assert forall|g: u64| #[trigger] cache@.contains_key(g) implies is_path_of(m, root, g, cache@[g]@) by {
                if g != f {
                    assert(old(cache)@.contains_key(g) || true);
                }
            }
        }
        k = k - 1;
    }
    Some(string_of(path.as_slice()))
}

/// Reconstruct the paths of many fids, sharing the work on common parent
/// chains. The result maps each fid whose chain reaches a root to its path;
/// a fid reaching a root within the walk bound is always there.
pub fn reconstruct_paths_cached(fids: &[u64], parent_map: &HashMap<u64, (u64, String)>, volume_root: &str) -> (r: HashMap<u64, String>)
    ensures
        forall|f: u64| #[trigger] r@.contains_key(f) ==> fids@.contains(f) && is_path_of(names_view(parent_map@), volume_root@, f, r@[f]@),
        forall|k: int| 0 <= k < fids@.len() && root_chain(names_view(parent_map@), #[trigger] fids@[k], MAX_CHAIN as nat) is Some ==> r@.contains_key(fids@[k]),
        cached_result(names_view(parent_map@), volume_root@, fids@, paths_view(r@)),
{
    let mut cache: HashMap<u64, String> = HashMap::new();
    let mut result: HashMap<u64, String> = HashMap::new();
    let mut i: usize = 0;
    while i < fids.len()
        invariant
            0 <= i <= fids@.len(),
            cache_sound(names_view(parent_map@), volume_root@, cache@),
            forall|f: u64| #[trigger] result@.contains_key(f) ==> fids@.take(i as int).contains(f) && is_path_of(names_view(parent_map@), volume_root@, f, result@[f]@),
            forall|k: int| 0 <= k < i && root_chain(names_view(parent_map@), #[trigger] fids@[k], MAX_CHAIN as nat) is Some ==> result@.contains_key(fids@[k]),
        decreases fids@.len() - i,
    {
        let fid = fids[i];
        let found = reconstruct_path_memo(fid, parent_map, volume_root, &mut cache);
        let ghost before = result@;
        match found {
            Some(p) => {
                result.insert(fid, p);
            },
            None => {},
        }
        proof {
            assert(fids@.take(i + 1)[i as int] == fid);
            assert forall|f: u64| #[trigger] result@.contains_key(f) implies fids@.take(i + 1).contains(f) && is_path_of(names_view(parent_map@), volume_root@, f, result@[f]@) by {
                if f != fid {
                    let j = choose|j: int| 0 <= j < i && fids@.take(i as int)[j] == f;
                    assert(fids@.take(i + 1)[j] == f);
                }
            }
            assert forall|k: int| 0 <= k < i + 1 && root_chain(names_view(parent_map@), #[trigger] fids@[k], MAX_CHAIN as nat) is Some implies result@.contains_key(fids@[k]) by {
                if k < i {
                    assert(before.contains_key(fids@[k]));
                }
            }
        }
        i = i + 1;
    }
    proof {
        assert(fids@.take(fids@.len() as int) =~= fids@);
    }
    result
}

/// The topology entry of an MFT record: NTFS metadata files (below
/// [`MIN_USER_FRN`]) and reparse points are left out; the directory flag
/// comes from the attributes.
pub fn topo_entry_of(fid: u64, parent_fid: u64, name: String, attributes: u32) -> (r: Option<TopoEntry>)
    ensures
        (fid < MIN_USER_FRN || attributes & FILE_ATTRIBUTE_REPARSE_POINT != 0) ==> r is None,
        !(fid < MIN_USER_FRN || attributes & FILE_ATTRIBUTE_REPARSE_POINT != 0) ==> r == Some(TopoEntry {
            fid,
            parent_fid,
            name,
            is_dir: attributes & FILE_ATTRIBUTE_DIRECTORY != 0,
            attributes,
        }),
{
    if fid < MIN_USER_FRN {
        return None;
    }
    if attributes & FILE_ATTRIBUTE_REPARSE_POINT != 0 {
        return None;
    }
    Some(TopoEntry { fid, parent_fid, name, is_dir: attributes & FILE_ATTRIBUTE_DIRECTORY != 0, attributes })
}

} // verus!
