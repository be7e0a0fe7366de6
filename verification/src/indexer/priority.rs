//! Priority scan ordering: which directories to index first.
//!
//! User-facing directories (Desktop, Documents, Downloads) are indexed first
//! so results show within seconds; bulk noise (node_modules, .git, build
//! artifacts) is scanned last.
//!
//! | Priority | Directories                             |
//! |----------|-----------------------------------------|
//! | 0 (high) | Desktop, Documents, Downloads, Photos   |
//! | 1        | Music, Videos, home root                |
//! | 2        | Program Files, /usr, /opt; and default  |
//! | 3        | AppData, .cache, Library                |
//! | 4 (low)  | node_modules, .git, target, __pycache__ |
//!
//! Names are matched against the path's components after ASCII lowercasing;
//! both `/` and `\` separate components.

use vstd::prelude::*;
use crate::path::{components, path_components, slashed, to_slashes};
use crate::text::{ascii_lower, chars_of, eq_chars, lex_le, lex_le_chars, lemma_lex_total, lemma_lex_trans, to_ascii_lower};

verus! {

broadcast use {vstd::string::group_string_axioms, vstd::seq_lib::group_to_multiset_ensures};

/// Priority tier for scan ordering (lower = scanned first).
#[derive(Debug, Clone, Copy, PartialEq, Eq, PartialOrd, Ord, Hash)]
pub struct ScanPriority(u8);

impl ScanPriority {
    /// Highest priority — user-facing directories.
    #[allow(non_snake_case)]
    pub fn USER_FACING() -> (r: Self)
        ensures
            r.tier() == 0,
    {
        ScanPriority(0)
    }

    /// Common media/home directories.
    #[allow(non_snake_case)]
    pub fn COMMON() -> (r: Self)
        ensures
            r.tier() == 1,
    {
        ScanPriority(1)
    }

    /// System/program directories.
    #[allow(non_snake_case)]
    pub fn SYSTEM() -> (r: Self)
        ensures
            r.tier() == 2,
    {
        ScanPriority(2)
    }

    /// Hidden/cache directories.
    #[allow(non_snake_case)]
    pub fn HIDDEN() -> (r: Self)
        ensures
            r.tier() == 3,
    {
        ScanPriority(3)
    }

    /// Bulk/noise directories (node_modules, .git, build artifacts).
    #[allow(non_snake_case)]
    pub fn BULK_NOISE() -> (r: Self)
        ensures
            r.tier() == 4,
    {
        ScanPriority(4)
    }

    /// Default priority for unrecognized paths.
    #[allow(non_snake_case)]
    pub fn DEFAULT() -> (r: Self)
        ensures
            r.tier() == 2,
    {
        ScanPriority(2)
    }

    /// The tier's number.
    pub closed spec fn tier(self) -> u8 {
        self.0
    }

    /// Raw numeric value (0 = highest priority).
    pub fn value(self) -> (r: u8)
        ensures
            r == self.tier(),
    {
        self.0
    }
}

/// Bulk-noise directory names (build output, caches, VCS data).
pub open spec fn noise_names() -> Seq<Seq<char>> {
    seq![
        "node_modules"@,
        ".git"@,
        "target"@,
        "__pycache__"@,
        ".tox"@,
        ".mypy_cache"@,
        "dist"@,
        "build"@,
        ".next"@,
        ".nuxt"@,
        ".cache"@,
        "vendor"@,
        ".gradle"@,
        ".m2"@,
    ]
}

/// Hidden and cache directory names.
pub open spec fn hidden_names() -> Seq<Seq<char>> {
    seq![
        "appdata"@,
        ".local"@,
        ".config"@,
        "library"@,
        ".cache"@,
        ".thumbnails"@,
        "temp"@,
        "tmp"@,
    ]
}

/// User-facing directory names.
pub open spec fn user_names() -> Seq<Seq<char>> {
    seq![
        "desktop"@,
        "documents"@,
        "downloads"@,
        "pictures"@,
        "photos"@,
    ]
}

/// Common media and home directory names.
pub open spec fn common_names() -> Seq<Seq<char>> {
    seq![
        "music"@,
        "videos"@,
        "movies"@,
        "home"@,
    ]
}

/// System and program directory names.
pub open spec fn system_names() -> Seq<Seq<char>> {
    seq![
        "program files"@,
        "program files (x86)"@,
        "programdata"@,
        "usr"@,
        "opt"@,
        "etc"@,
        "var"@,
    ]
}

/// The components of a path for scan classification: Windows-style paths
/// split at `\` as well as `/`.
pub open spec fn scan_components(s: Seq<char>) -> Seq<Seq<char>> {
    components(slashed(s))
}

/// Some component of the (lowercased) path is one of `names`.
pub open spec fn has_component_in(lower: Seq<char>, names: Seq<Seq<char>>) -> bool {
    exists|i: int|
        0 <= i < scan_components(lower).len() && names.contains(#[trigger] scan_components(lower)[i])
}

/// The scan tier of a path: bulk noise, then hidden/cache, then user-facing,
/// common and system names are looked for, in that order; anything else is
/// the default tier.
pub open spec fn priority_of(path: Seq<char>) -> u8 {
    let l = ascii_lower(path);
    if has_component_in(l, noise_names()) {
        4
    } else if has_component_in(l, hidden_names()) {
        3
    } else if has_component_in(l, user_names()) {
        0
    } else if has_component_in(l, common_names()) {
        1
    } else if has_component_in(l, system_names()) {
        2
    } else {
        2
    }
}

/// A component among `names` puts the path among those with such a component.
proof fn lemma_component_found(l: Seq<char>, names: Seq<Seq<char>>, i: int)
    requires
        0 <= i < scan_components(l).len(),
        names.contains(scan_components(l)[i]),
    ensures
        has_component_in(l, names),
{
}

/// A path with a build-output, cache or VCS component (`node_modules`,
/// `.git`, `target`, `__pycache__`, `.tox`, `.mypy_cache`, `dist`, `build`,
/// `.next`, `.nuxt`, `.cache`, `vendor`, `.gradle`, `.m2`; any case) is in
/// tier 4, whatever else it holds.
pub proof fn lemma_noise_tier(path: Seq<char>, i: int)
    requires
        0 <= i < scan_components(ascii_lower(path)).len(),
        seq!["node_modules"@, ".git"@, "target"@, "__pycache__"@, ".tox"@, ".mypy_cache"@, "dist"@,
            "build"@, ".next"@, ".nuxt"@, ".cache"@, "vendor"@, ".gradle"@, ".m2"@].contains(
            scan_components(ascii_lower(path))[i]),
    ensures
        priority_of(path) == 4,
{
    assert(noise_names() =~= seq!["node_modules"@, ".git"@, "target"@, "__pycache__"@, ".tox"@, ".mypy_cache"@,
        "dist"@, "build"@, ".next"@, ".nuxt"@, ".cache"@, "vendor"@, ".gradle"@, ".m2"@]);
    lemma_component_found(ascii_lower(path), noise_names(), i);
}

/// A path with a hidden or cache component (`appdata`, `.local`, `.config`,
/// `library`, `.cache`, `.thumbnails`, `temp`, `tmp`; any case) and no
/// bulk-noise component is in tier 3.
pub proof fn lemma_hidden_tier(path: Seq<char>, i: int)
    requires
        0 <= i < scan_components(ascii_lower(path)).len(),
        seq!["appdata"@, ".local"@, ".config"@, "library"@, ".cache"@, ".thumbnails"@, "temp"@, "tmp"@].contains(
            scan_components(ascii_lower(path))[i]),
        !has_component_in(ascii_lower(path), noise_names()),
    ensures
        priority_of(path) == 3,
{
    assert(hidden_names() =~= seq!["appdata"@, ".local"@, ".config"@, "library"@, ".cache"@, ".thumbnails"@,
        "temp"@, "tmp"@]);
    lemma_component_found(ascii_lower(path), hidden_names(), i);
}

/// A path with a user-facing component (`desktop`, `documents`,
/// `downloads`, `pictures`, `photos`; any case) and no bulk-noise or
/// hidden/cache component is in tier 0.
pub proof fn lemma_user_tier(path: Seq<char>, i: int)
    requires
        0 <= i < scan_components(ascii_lower(path)).len(),
        seq!["desktop"@, "documents"@, "downloads"@, "pictures"@, "photos"@].contains(
            scan_components(ascii_lower(path))[i]),
        !has_component_in(ascii_lower(path), noise_names()),
        !has_component_in(ascii_lower(path), hidden_names()),
    ensures
        priority_of(path) == 0,
{
    assert(user_names() =~= seq!["desktop"@, "documents"@, "downloads"@, "pictures"@, "photos"@]);
    lemma_component_found(ascii_lower(path), user_names(), i);
}

/// A path with a component (after ASCII lowercasing) named `music`,
/// `videos`, `movies` or `home`, and no bulk-noise, hidden/cache or
/// user-facing component, is in tier 1.
pub proof fn lemma_common_media_tier(path: Seq<char>, i: int)
    requires
        0 <= i < scan_components(ascii_lower(path)).len(),
        seq!["music"@, "videos"@, "movies"@, "home"@].contains(scan_components(ascii_lower(path))[i]),
        !has_component_in(ascii_lower(path), noise_names()),
        !has_component_in(ascii_lower(path), hidden_names()),
        !has_component_in(ascii_lower(path), user_names()),
    ensures
        priority_of(path) == 1,
{
    assert(common_names() =~= seq!["music"@, "videos"@, "movies"@, "home"@]);
    lemma_component_found(ascii_lower(path), common_names(), i);
}

/// A path with a system component (`program files`, `program files (x86)`,
/// `programdata`, `usr`, `opt`, `etc`, `var`; any case) and none of the
/// names of the other tiers is in tier 2; so is a path with no listed name.
pub proof fn lemma_system_tier(path: Seq<char>)
    requires
        !has_component_in(ascii_lower(path), noise_names()),
        !has_component_in(ascii_lower(path), hidden_names()),
        !has_component_in(ascii_lower(path), user_names()),
        !has_component_in(ascii_lower(path), common_names()),
    ensures
        priority_of(path) == 2,
{
}

/// Bulk-noise directory names (build output, caches, VCS data).
fn noise_list() -> (r: Vec<&'static str>)
    ensures
        r@.len() == noise_names().len(),
        forall|i: int| 0 <= i < r@.len() ==> (#[trigger] r@[i])@ == noise_names()[i],
{
    let mut v: Vec<&'static str> = Vec::new();
    v.push("node_modules");
    v.push(".git");
    v.push("target");
    v.push("__pycache__");
    v.push(".tox");
    v.push(".mypy_cache");
    v.push("dist");
    v.push("build");
    v.push(".next");
    v.push(".nuxt");
    v.push(".cache");
    v.push("vendor");
    v.push(".gradle");
    v.push(".m2");
    v
}

/// Hidden and cache directory names.
fn hidden_list() -> (r: Vec<&'static str>)
    ensures
        r@.len() == hidden_names().len(),
        forall|i: int| 0 <= i < r@.len() ==> (#[trigger] r@[i])@ == hidden_names()[i],
{
    let mut v: Vec<&'static str> = Vec::new();
    v.push("appdata");
    v.push(".local");
    v.push(".config");
    v.push("library");
    v.push(".cache");
    v.push(".thumbnails");
    v.push("temp");
    v.push("tmp");
    v
}

/// User-facing directory names.
fn user_list() -> (r: Vec<&'static str>)
    ensures
        r@.len() == user_names().len(),
        forall|i: int| 0 <= i < r@.len() ==> (#[trigger] r@[i])@ == user_names()[i],
{
    let mut v: Vec<&'static str> = Vec::new();
    v.push("desktop");
    v.push("documents");
    v.push("downloads");
    v.push("pictures");
    v.push("photos");
    v
}

/// Common media and home directory names.
fn common_list() -> (r: Vec<&'static str>)
    ensures
        r@.len() == common_names().len(),
        forall|i: int| 0 <= i < r@.len() ==> (#[trigger] r@[i])@ == common_names()[i],
{
    let mut v: Vec<&'static str> = Vec::new();
    v.push("music");
    v.push("videos");
    v.push("movies");
    v.push("home");
    v
}

/// System and program directory names.
fn system_list() -> (r: Vec<&'static str>)
    ensures
        r@.len() == system_names().len(),
        forall|i: int| 0 <= i < r@.len() ==> (#[trigger] r@[i])@ == system_names()[i],
{
    let mut v: Vec<&'static str> = Vec::new();
    v.push("program files");
    v.push("program files (x86)");
    v.push("programdata");
    v.push("usr");
    v.push("opt");
    v.push("etc");
    v.push("var");
    v
}

/// Whether `c` is one of `names`.
fn name_in(c: &[char], names: &Vec<&'static str>) -> (r: bool)
    ensures
        r == exists|k: int| 0 <= k < names@.len() && (#[trigger] names@[k])@ == c@,
{
    let mut k: usize = 0;
    while k < names.len()
        invariant
            0 <= k <= names@.len(),
            forall|j: int| 0 <= j < k ==> (#[trigger] names@[j])@ != c@,
        decreases names@.len() - k,
    {
        let n = chars_of(names[k]);
        if eq_chars(c, n.as_slice()) {
            return true;
        }
        k = k + 1;
    }
    false
}

/// Check if any component of an already lowercased path is one of `names`.
pub fn matches_any_component(path_lower: &str, names: &[&str]) -> (r: bool)
    ensures
        r == has_component_in(path_lower@, names@.map_values(|s: &str| s@)),
{
    let p = chars_of(path_lower);
    let q = to_slashes(p.as_slice());
    let comps = path_components(q.as_slice());
    let ghost nv = names@.map_values(|s: &str| s@);
    let mut i: usize = 0;
    while i < comps.len()
        invariant
            0 <= i <= comps@.len(),
            nv == names@.map_values(|s: &str| s@),
            nv.len() == names@.len(),
            p@ == path_lower@,
            comps@.len() == scan_components(p@).len(),
            forall|k: int| 0 <= k < comps@.len() ==> #[trigger] comps@[k]@ == scan_components(p@)[k],
            forall|k: int| 0 <= k < i ==> !nv.contains(#[trigger] scan_components(p@)[k]),
        decreases comps@.len() - i,
    {
        let hit = name_in_slice(comps[i].as_slice(), names);
        if hit {
            proof {
                let k = choose|k: int| 0 <= k < names@.len() && (#[trigger] names@[k])@ == comps@[i as int]@;
                assert(nv[k] == scan_components(p@)[i as int]);
            }
            return true;
        }
        proof {
            if nv.contains(scan_components(p@)[i as int]) {
                let k = choose|k: int| 0 <= k < nv.len() && nv[k] == scan_components(p@)[i as int];
                assert(names@[k]@ == comps@[i as int]@);
            }
        }
        i = i + 1;
    }
    false
}

/// Whether `c` is one of `names`.
fn name_in_slice(c: &[char], names: &[&str]) -> (r: bool)
    ensures
        r == exists|k: int| 0 <= k < names@.len() && (#[trigger] names@[k])@ == c@,
{
    let mut k: usize = 0;
    while k < names.len()
        invariant
            0 <= k <= names@.len(),
            forall|j: int| 0 <= j < k ==> (#[trigger] names@[j])@ != c@,
        decreases names@.len() - k,
    {
        let n = chars_of(names[k]);
        if eq_chars(c, n.as_slice()) {
            return true;
        }
        k = k + 1;
    }
    false
}

/// Whether some component of `comps` is one of `names`.
fn any_component_in(comps: &Vec<Vec<char>>, names: &Vec<&'static str>, Ghost(l): Ghost<Seq<char>>, Ghost(ns): Ghost<Seq<Seq<char>>>) -> (r: bool)
    requires
        comps@.len() == scan_components(l).len(),
        forall|k: int| 0 <= k < comps@.len() ==> #[trigger] comps@[k]@ == scan_components(l)[k],
        names@.len() == ns.len(),
        forall|k: int| 0 <= k < names@.len() ==> (#[trigger] names@[k])@ == ns[k],
    ensures
        r == has_component_in(l, ns),
{
    let mut i: usize = 0;
    while i < comps.len()
        invariant
            0 <= i <= comps@.len(),
            comps@.len() == scan_components(l).len(),
            forall|k: int| 0 <= k < comps@.len() ==> #[trigger] comps@[k]@ == scan_components(l)[k],
            names@.len() == ns.len(),
            forall|k: int| 0 <= k < names@.len() ==> (#[trigger] names@[k])@ == ns[k],
            forall|k: int| 0 <= k < i ==> !ns.contains(#[trigger] scan_components(l)[k]),
        decreases comps@.len() - i,
    {
        if name_in(comps[i].as_slice(), names) {
            proof {
                let k = choose|k: int| 0 <= k < names@.len() && (#[trigger] names@[k])@ == comps@[i as int]@;
                assert(ns[k] == scan_components(l)[i as int]);
            }
            return true;
        }
        proof {
            if ns.contains(scan_components(l)[i as int]) {
                let k = choose|k: int| 0 <= k < ns.len() && ns[k] == scan_components(l)[i as int];
                assert(names@[k]@ == comps@[i as int]@);
            }
        }
        i = i + 1;
    }
    false
}

/// The components of the ASCII-lowercased path.
fn lower_components(path: &str) -> (r: Vec<Vec<char>>)
    ensures
        r@.len() == scan_components(ascii_lower(path@)).len(),
        forall|k: int| 0 <= k < r@.len() ==> #[trigger] r@[k]@ == scan_components(ascii_lower(path@))[k],
{
    let p = chars_of(path);
    let l = to_ascii_lower(p.as_slice());
    let q = to_slashes(l.as_slice());
    path_components(q.as_slice())
}

/// Check if a path contains a "bulk noise" directory component.
pub fn is_bulk_noise(path: &str) -> (r: bool)
    ensures
        r == has_component_in(ascii_lower(path@), noise_names()),
{
    let comps = lower_components(path);
    any_component_in(&comps, &noise_list(), Ghost(ascii_lower(path@)), Ghost(noise_names()))
}

/// Check if a path contains hidden or cache directories.
pub fn is_hidden_cache(path: &str) -> (r: bool)
    ensures
        r == has_component_in(ascii_lower(path@), hidden_names()),
{
    let comps = lower_components(path);
    any_component_in(&comps, &hidden_list(), Ghost(ascii_lower(path@)), Ghost(hidden_names()))
}

/// Classify a directory path into a scan priority tier.
pub fn classify_priority(path: &str) -> (r: ScanPriority)
    ensures
        r.tier() == priority_of(path@),
{
    let comps = lower_components(path);
    let ghost l = ascii_lower(path@);
    if any_component_in(&comps, &noise_list(), Ghost(l), Ghost(noise_names())) {
        return ScanPriority::BULK_NOISE();
    }
    if any_component_in(&comps, &hidden_list(), Ghost(l), Ghost(hidden_names())) {
        return ScanPriority::HIDDEN();
    }
    if any_component_in(&comps, &user_list(), Ghost(l), Ghost(user_names())) {
        return ScanPriority::USER_FACING();
    }
    if any_component_in(&comps, &common_list(), Ghost(l), Ghost(common_names())) {
        return ScanPriority::COMMON();
    }
    if any_component_in(&comps, &system_list(), Ghost(l), Ghost(system_names())) {
        return ScanPriority::SYSTEM();
    }
    ScanPriority::DEFAULT()
}

// ───────────────────────────── ordering ─────────────────────────────

/// Scan order: lower tier first, then alphabetically.
pub open spec fn priority_le(a: Seq<char>, b: Seq<char>) -> bool {
    ||| priority_of(a) < priority_of(b)
    ||| (priority_of(a) == priority_of(b) && lex_le(a, b))
}

/// Every path comes no later in scan order than those after it.
pub open spec fn sorted_by_priority(s: Seq<String>) -> bool {
    forall|i: int, j: int| 0 <= i < j < s.len() ==> priority_le(#[trigger] s[i]@, #[trigger] s[j]@)
}

/// Scan order is total.
pub proof fn lemma_priority_total(a: Seq<char>, b: Seq<char>)
    ensures
        priority_le(a, b) || priority_le(b, a),
{
    lemma_lex_total(a, b);
}

/// Scan order is transitive.
pub proof fn lemma_priority_trans(a: Seq<char>, b: Seq<char>, c: Seq<char>)
    requires
        priority_le(a, b),
        priority_le(b, c),
    ensures
        priority_le(a, c),
{
    if priority_of(a) == priority_of(b) && priority_of(b) == priority_of(c) {
        lemma_lex_trans(a, b, c);
    }
}

/// Sort paths by scan priority (highest priority first); within a tier,
/// alphabetically.
pub fn sort_by_priority(paths: &mut Vec<String>)
    ensures
        final(paths)@.to_multiset() == old(paths)@.to_multiset(),
        sorted_by_priority(final(paths)@),
{
    let mut src: Vec<String> = Vec::new();
    std::mem::swap(&mut src, paths);
    let ghost orig = src@;
    let mut out: Vec<String> = Vec::new();
    let mut tiers: Vec<u8> = Vec::new();
    proof {
        assert(out@.to_multiset().add(src@.to_multiset()) =~= orig.to_multiset());
    }
    while src.len() > 0
        invariant
            out@.len() == tiers@.len(),
            forall|k: int| 0 <= k < out@.len() ==> #[trigger] tiers@[k] == priority_of(out@[k]@),
            sorted_by_priority(out@),
            out@.to_multiset().add(src@.to_multiset()) == orig.to_multiset(),
            orig == old(paths)@,
        decreases src@.len(),
    {
        let ghost before = src@;
        let s = src.pop().unwrap();
        proof {
            assert(before =~= src@.push(s));
        }
        let tier = classify_priority(s.as_str()).value();
        let sc = chars_of(s.as_str());
        let mut j: usize = 0;
        while j < out.len()
            invariant
                0 <= j <= out@.len(),
                out@.len() == tiers@.len(),
                forall|k: int| 0 <= k < out@.len() ==> #[trigger] tiers@[k] == priority_of(out@[k]@),
                sc@ == s@,
                tier == priority_of(s@),
                forall|k: int| 0 <= k < j ==> priority_le(#[trigger] out@[k]@, s@),
            ensures
                0 <= j <= out@.len(),
                forall|k: int| 0 <= k < j ==> priority_le(#[trigger] out@[k]@, s@),
                j < out@.len() ==> !priority_le(out@[j as int]@, s@),
            decreases out@.len() - j,
        {
            let before_s = if tiers[j] < tier {
                true
            } else if tiers[j] == tier {
                let oc = chars_of(out[j].as_str());
                lex_le_chars(oc.as_slice(), sc.as_slice())
            } else {
                false
            };
            if !before_s {
                break;
            }
            j = j + 1;
        }
        let ghost old_out = out@;
        proof {
            if j < old_out.len() {
                assert(!priority_le(old_out[j as int]@, s@));
                lemma_priority_total(old_out[j as int]@, s@);
            }
        }
        out.insert(j, s);
        tiers.insert(j, tier);
        proof {
            assert forall|a: int, b: int| 0 <= a < b < out@.len() implies priority_le(
                #[trigger] out@[a]@,
                #[trigger] out@[b]@,
            ) by {
                if b < j {
                    assert(out@[a] == old_out[a] && out@[b] == old_out[b]);
                } else if b == j {
                    assert(out@[a] == old_out[a]);
                } else if a == j {
                    assert(out@[b] == old_out[b - 1]);
                    if b - 1 > j {
                        lemma_priority_trans(s@, old_out[j as int]@, old_out[b - 1]@);
                    }
                } else if a < j {
                    assert(out@[a] == old_out[a] && out@[b] == old_out[b - 1]);
                } else {
                    assert(out@[a] == old_out[a - 1] && out@[b] == old_out[b - 1]);
                }
            }
            assert forall|k: int| 0 <= k < out@.len() implies #[trigger] tiers@[k] == priority_of(
                out@[k]@,
            ) by {
                if k < j {
                    assert(out@[k] == old_out[k]);
                } else if k > j {
                    assert(out@[k] == old_out[k - 1]);
                }
            }
            assert(out@.to_multiset().add(src@.to_multiset()) =~= orig.to_multiset());
        }
    }
    proof {
        assert(src@.to_multiset() =~= vstd::multiset::Multiset::empty());
        assert(out@.to_multiset() =~= orig.to_multiset());
    }
    *paths = out;
}

} // verus!
