//! Build artifact and cache directory detection patterns.
//!
//! Used to identify directories that can be safely deleted to reclaim space
//! (e.g., node_modules, target, __pycache__).

use vstd::prelude::*;
use crate::text::{chars_of, eq_chars, lowercase, push_str, string_of, to_lowercase};

verus! {

broadcast use vstd::string::group_string_axioms;

/// Known build artifact / cache directory names, in order.
pub open spec fn artifact_patterns() -> Seq<Seq<char>> {
    seq![
        "node_modules"@,
        "target"@,
        "__pycache__"@,
        ".git/objects"@,
        "dist"@,
        ".next"@,
        ".nuxt"@,
        "build"@,
        ".gradle"@,
        ".cache"@,
        "vendor"@,
        ".tox"@,
        ".pytest_cache"@,
        ".mypy_cache"@,
        "egg-info"@,
    ]
}

/// Known build artifact / cache directory names.
pub fn build_artifact_patterns() -> (r: Vec<&'static str>)
    ensures
        r@.len() == artifact_patterns().len(),
        forall|i: int| 0 <= i < r@.len() ==> (#[trigger] r@[i])@ == artifact_patterns()[i],
{
    let mut v: Vec<&'static str> = Vec::new();
    v.push("node_modules");
    v.push("target");
    v.push("__pycache__");
    v.push(".git/objects");
    v.push("dist");
    v.push(".next");
    v.push(".nuxt");
    v.push("build");
    v.push(".gradle");
    v.push(".cache");
    v.push("vendor");
    v.push(".tox");
    v.push(".pytest_cache");
    v.push(".mypy_cache");
    v.push("egg-info");
    proof {
        assert(v@.len() == artifact_patterns().len());
    }
    v
}

/// Whether the lowercased directory name is one of the patterns.
pub open spec fn is_artifact_name(l: Seq<char>) -> bool {
    artifact_patterns().contains(l)
}

/// Check if a directory name matches a known build artifact pattern,
/// comparing case-insensitively.
pub fn is_build_artifact_dir(name: &str) -> (r: bool)
    ensures
        r == is_artifact_name(lowercase(name@)),
{
    let lower = to_lowercase(name);
    let l = chars_of(lower.as_str());
    let pats = build_artifact_patterns();
    let mut i: usize = 0;
    while i < pats.len()
        invariant
            0 <= i <= pats@.len(),
            pats@.len() == artifact_patterns().len(),
            forall|k: int| 0 <= k < pats@.len() ==> (#[trigger] pats@[k])@ == artifact_patterns()[k],
            l@ == lowercase(name@),
            forall|k: int| 0 <= k < i ==> artifact_patterns()[k] != l@,
        decreases pats@.len() - i,
    {
        let p = chars_of(pats[i]);
        if eq_chars(l.as_slice(), p.as_slice()) {
            proof {
                assert(artifact_patterns()[i as int] == l@);
            }
            return true;
        }
        i = i + 1;
    }
    false
}

/// The patterns quoted and joined with ", ".
pub open spec fn quoted_list(p: Seq<Seq<char>>) -> Seq<char>
    decreases p.len(),
{
    if p.len() == 0 {
        Seq::empty()
    } else if p.len() == 1 {
        seq!['\''] + p[0] + seq!['\'']
    } else {
        quoted_list(p.drop_last()) + seq![',', ' ', '\''] + p.last() + seq!['\'']
    }
}

/// `LOWER(l.name) IN ('node_modules', 'target', ...)`.
pub open spec fn artifact_sql() -> Seq<char> {
    "LOWER(l.name) IN ("@ + quoted_list(artifact_patterns()) + seq![')']
}

/// Generate a SQL fragment for WHERE clause filtering:
/// `LOWER(l.name) IN ('node_modules', 'target', ...)`.
pub fn build_artifact_sql_fragment() -> (r: String)
    ensures
        r@ == artifact_sql(),
{
    let pats = build_artifact_patterns();
    let mut v: Vec<char> = Vec::new();
    push_str(&mut v, "LOWER(l.name) IN (");
    let ghost head = v@;
    let mut i: usize = 0;
    while i < pats.len()
        invariant
            0 <= i <= pats@.len(),
            pats@.len() == artifact_patterns().len(),
            forall|k: int| 0 <= k < pats@.len() ==> (#[trigger] pats@[k])@ == artifact_patterns()[k],
            v@ == head + quoted_list(artifact_patterns().take(i as int)),
        decreases pats@.len() - i,
    {
        if i == 0 {
            v.push('\'');
        } else {
            v.push(',');
            v.push(' ');
            v.push('\'');
        }
        push_str(&mut v, pats[i]);
        v.push('\'');
        proof {
            let p = artifact_patterns();
            assert(p.take(i + 1).drop_last() =~= p.take(i as int));
            assert(p.take(i + 1).last() == p[i as int]);
            if i == 0 {
                assert(p.take(1)[0] == p[0]);
            }
        }
        i = i + 1;
    }
    v.push(')');
    proof {
        assert(artifact_patterns().take(artifact_patterns().len() as int) =~= artifact_patterns());
    }
    string_of(v.as_slice())
}

} // verus!
