//! Path reconstruction for the Linux scan.
//!
//! The walk records each entry's inode-derived fid, its parent's fid and its
//! name. A path is rebuilt by walking up the parents, stopping at the root
//! (its own parent), at an unknown fid, or when a fid comes round again; the
//! names met, root side first and the topmost one left out, are then appended
//! to the scan root.

use vstd::prelude::*;
use std::collections::HashMap;
use crate::indexer::linux_events::{join_name, join_path};
use crate::indexer::mft::names_view;
use crate::text::chars_of;

verus! {

broadcast use {vstd::string::group_string_axioms, vstd::std_specs::hash::group_hash_axioms};

/// The names met walking up from `cur`, not revisiting the fids of `seen`,
/// within `fuel` steps: an unknown or revisited fid ends the walk, a root
/// (its own parent) ends it after its name.
pub open spec fn walk_up(m: Map<u64, (u64, Seq<char>)>, cur: u64, seen: Seq<u64>, fuel: nat) -> Seq<Seq<char>>
    decreases fuel,
{
    if fuel == 0 || seen.contains(cur) || !m.contains_key(cur) {
        seq![]
    } else if m[cur].0 == cur {
        seq![m[cur].1]
    } else {
        seq![m[cur].1] + walk_up(m, m[cur].0, seen.push(cur), (fuel - 1) as nat)
    }
}

/// `base` with each name appended in turn (`PathBuf::push`).
pub open spec fn join_all(base: Seq<char>, names: Seq<Seq<char>>) -> Seq<char>
    decreases names.len(),
{
    if names.len() == 0 {
        base
    } else {
        join_all(join_name(base, names[0]), names.drop_first())
    }
}

/// The path built from the names met (deepest first): the scan root when
/// there is at most one, else the root with the others appended from the
/// top down, the topmost left out.
pub open spec fn path_from_names(root: Seq<char>, names: Seq<Seq<char>>) -> Seq<char> {
    if names.len() <= 1 {
        root
    } else {
        join_all(root, names.reverse().drop_first())
    }
}

/// The path of `fid` below `root`.
pub open spec fn scan_path(m: Map<u64, (u64, Seq<char>)>, root: Seq<char>, fid: u64) -> Seq<char> {
    path_from_names(root, walk_up(m, fid, seq![], (m.dom().len() + 1) as nat))
}

/// The fids of a walk are distinct fids of the map, so there are no more of
/// them than the map holds.
proof fn lemma_seen_bound(m: Map<u64, (u64, Seq<char>)>, seen: Seq<u64>)
    requires
        m.dom().finite(),
        seen.no_duplicates(),
        forall|i: int| 0 <= i < seen.len() ==> m.contains_key(#[trigger] seen[i]),
    ensures
        seen.len() <= m.dom().len(),
{
    seen.unique_seq_to_set();
    assert(seen.to_set().subset_of(m.dom()));
    vstd::set_lib::lemma_len_subset(seen.to_set(), m.dom());
}

/// Reconstruct the full path of `fid` by walking its parent chain (with
/// cycle detection) and appending the names to `root`. Never fails.
pub fn reconstruct_path(fid: u64, parent_map: &HashMap<u64, (u64, String)>, root: &str) -> (r: Option<String>)
    ensures
        r matches Some(p) && p@ == scan_path(names_view(parent_map@), root@, fid),
{
    let ghost m = names_view(parent_map@);
    let ghost total = (m.dom().len() + 1) as nat;
    proof {
        assert(m.dom() =~= parent_map@.dom());
    }
    let mut names: Vec<Vec<char>> = Vec::new();
    let mut visited: Vec<u64> = Vec::new();
    let mut current = fid;
    loop
        invariant_except_break
            walk_up(m, fid, seq![], total) == names@.map_values(|v: Vec<char>| v@) + walk_up(m, current, visited@, (total - visited@.len()) as nat),
        invariant
            m == names_view(parent_map@),
            m.dom().finite(),
            total == m.dom().len() + 1,
            visited@.no_duplicates(),
            forall|i: int| 0 <= i < visited@.len() ==> m.contains_key(#[trigger] visited@[i]),
            visited@.len() <= m.dom().len(),
        ensures
            walk_up(m, fid, seq![], total) == names@.map_values(|v: Vec<char>| v@),
        decreases m.dom().len() - visited@.len(),
    {
        let mut seen = false;
        let mut k: usize = 0;
        while k < visited.len()
            invariant
                0 <= k <= visited@.len(),
                seen == exists|j: int| 0 <= j < k && visited@[j] == current,
            decreases visited@.len() - k,
        {
            if visited[k] == current {
                seen = true;
            }
            k = k + 1;
        }
        let ghost fuel = (total - visited@.len()) as nat;
        if seen {
            proof {
                assert(visited@.contains(current));
                assert(walk_up(m, current, visited@, fuel) =~= Seq::<Seq<char>>::empty());
                assert(names@.map_values(|v: Vec<char>| v@) + Seq::<Seq<char>>::empty() =~= names@.map_values(|v: Vec<char>| v@));
            }
            break;
        }
        match parent_map.get(&current) {
            Some(entry) => {
                let ghost before = names@.map_values(|v: Vec<char>| v@);
                let name = chars_of(entry.1.as_str());
                names.push(name);
                proof {
                    assert(names@.map_values(|v: Vec<char>| v@) =~= before.push(m[current].1));
                }
                if entry.0 == current {
                    proof {
                        assert(walk_up(m, current, visited@, fuel) == seq![m[current].1]);
                        assert(before + seq![m[current].1] =~= before.push(m[current].1));
                    }
                    break;
                }
                proof {
                    let rest = walk_up(m, entry.0, visited@.push(current), (fuel - 1) as nat);
                    assert(walk_up(m, current, visited@, fuel) == seq![m[current].1] + rest);
                    assert(before + (seq![m[current].1] + rest) =~= before.push(m[current].1) + rest);
                }
                let ghost old_visited = visited@;
                visited.push(current);
                proof {
                    assert forall|a: int, b: int| 0 <= a < b < visited@.len() implies visited@[a] != visited@[b] by {
                        if b == old_visited.len() {
                            assert(visited@[a] == old_visited[a]);
                            assert(!old_visited.contains(current));
                        } else {
                            assert(visited@[a] == old_visited[a] && visited@[b] == old_visited[b]);
                        }
                    }
                    assert forall|i: int| 0 <= i < visited@.len() implies m.contains_key(#[trigger] visited@[i]) by {
                        if i < old_visited.len() {
                            assert(visited@[i] == old_visited[i]);
                        }
                    }
                    lemma_seen_bound(m, visited@);
                    assert((total - visited@.len()) as nat == (fuel - 1) as nat);
                }
                current = entry.0;
            },
            None => {
                proof {
                    assert(walk_up(m, current, visited@, fuel) =~= Seq::<Seq<char>>::empty());
                    assert(names@.map_values(|v: Vec<char>| v@) + Seq::<Seq<char>>::empty() =~= names@.map_values(|v: Vec<char>| v@));
                }
                break;
            },
        }
    }
    let ghost ns = names@.map_values(|v: Vec<char>| v@);
    if names.len() <= 1 {
        return Some(root.to_string());
    }
    // Append the names from the top down, leaving out the topmost.
    let mut path: String = root.to_string();
    let mut k: usize = names.len() - 1;
    proof {
        assert(ns.reverse().drop_first().skip(0) =~= ns.reverse().drop_first());
    }
    while k > 0
        invariant
            0 <= k < names@.len(),
            ns == names@.map_values(|v: Vec<char>| v@),
            join_all(root@, ns.reverse().drop_first()) == join_all(path@, ns.reverse().drop_first().skip(names@.len() - 1 - k)),
        decreases k,
    {
        let ghost j = names@.len() - 1 - k;
        let ghost rest = ns.reverse().drop_first().skip(j);
        proof {
            assert(rest[0] == ns[k - 1]);
            assert(rest.drop_first() =~= ns.reverse().drop_first().skip(j + 1));
        }
        let name = crate::text::string_of(names[k - 1].as_slice());
        path = join_path(path.as_str(), name.as_str());
        k = k - 1;
    }
    proof {
        assert(ns.reverse().drop_first().skip(names@.len() - 1) =~= Seq::<Seq<char>>::empty());
    }
    Some(path)
}

} // verus!
