//! The common input type of all duplicate-detection strategies.

use vstd::prelude::*;
use crate::path::{depth, path_depth_of, file_name, extension, path_file_name, path_extension};
use crate::text::{
    chars_of, string_of, to_lowercase, lowercase, contains_seq, occurs_at, contains_chars,
    rfind_seq, is_ascii_digit, is_digit, ends_with_chars,
};

verus! {

broadcast use vstd::string::group_string_axioms;

/// A file entry for duplicate scanning.
#[derive(Debug)]
pub struct FileEntry {
    /// Full path to the file.
    pub path: String,
    /// File size in bytes.
    pub size: u64,
    /// Filename (with extension).
    pub name: String,
    /// File extension (lowercase, without dot), if any.
    pub extension: Option<String>,
    /// Last modification time as Unix timestamp.
    pub modified_at: i64,
    /// Inode number (Unix) or file index (Windows), if available.
    pub inode: Option<u64>,
}

impl Clone for FileEntry {
    fn clone(&self) -> (r: Self)
        ensures
            r == *self,
    {
        let extension = match &self.extension {
            Some(e) => Some(e.clone()),
            None => None,
        };
        FileEntry {
            path: self.path.clone(),
            size: self.size,
            name: self.name.clone(),
            extension,
            modified_at: self.modified_at,
            inode: self.inode,
        }
    }
}

/// Index of the first occurrence of `c` in `s`, if any.
pub open spec fn first_index_of(s: Seq<char>, c: char) -> Option<int>
    decreases s.len(),
{
    if s.len() == 0 {
        None
    } else {
        match first_index_of(s.drop_last(), c) {
            Some(i) => Some(i),
            None => if s.last() == c {
                Some(s.len() - 1)
            } else {
                None
            },
        }
    }
}

/// `i` is the last position at which `needle` occurs in `hay`.
pub open spec fn is_last_occurrence(hay: Seq<char>, needle: Seq<char>, i: int) -> bool {
    occurs_at(hay, needle, i) && forall|k: int| i < k ==> !occurs_at(hay, needle, k)
}

/// One or two ASCII digits whose value lies in `1..=99`.
pub open spec fn is_copy_number(s: Seq<char>) -> bool {
    &&& 1 <= s.len() <= 2
    &&& forall|i: int| 0 <= i < s.len() ==> is_digit(#[trigger] s[i])
    &&& exists|i: int| 0 <= i < s.len() && s[i] != '0'
}

/// The lowercased name ends in ` (N)`-style numbering: after the last ` (`,
/// the text up to the next `)` is a number in `1..=99`.
pub open spec fn has_paren_number(l: Seq<char>) -> bool {
    exists|s: int|
        #![trigger is_last_occurrence(l, " ("@, s)]
        is_last_occurrence(l, " ("@, s) && match first_index_of(l.skip(s), ')') {
            Some(e) => is_copy_number(l.subrange(s + 2, s + e)),
            None => false,
        }
}

/// The part of a name before its first `.` (the whole name when it has none).
pub open spec fn stem_before_dot(l: Seq<char>) -> Seq<char> {
    match first_index_of(l, '.') {
        Some(i) => l.take(i),
        None => l,
    }
}

/// Windows short-name collision such as `filename~1.ext`.
pub open spec fn has_tilde_suffix(l: Seq<char>) -> bool {
    let stem = stem_before_dot(l);
    &&& contains_seq(l, "~"@)
    &&& (stem.len() >= 2 && stem.skip(stem.len() - 2) == "~1"@ || stem.len() >= 2 && stem.skip(
        stem.len() - 2,
    ) == "~2"@ || stem.len() >= 2 && stem.skip(stem.len() - 2) == "~3"@)
}

/// Whether a lowercased filename carries a common copy pattern.
pub open spec fn copy_pattern(l: Seq<char>) -> bool {
    ||| contains_seq(l, "copy of "@)
    ||| contains_seq(l, " - copy"@)
    ||| contains_seq(l, " copy."@)
    ||| has_paren_number(l)
    ||| has_tilde_suffix(l)
}

/// Position of the first occurrence of `c` in `v`.
pub fn find_char(v: &[char], c: char) -> (r: Option<usize>)
    ensures
        match r {
            Some(i) => first_index_of(v@, c) == Some(i as int) && i < v@.len(),
            None => first_index_of(v@, c) is None,
        },
{
    let mut i: usize = 0;
    while i < v.len()
        invariant
            0 <= i <= v@.len(),
            first_index_of(v@.take(i as int), c) is None,
        decreases v@.len() - i,
    {
        proof {
            assert(v@.take(i + 1).drop_last() =~= v@.take(i as int));
        }
        if v[i] == c {
            proof {
                lemma_first_index_prefix(v@, c, i + 1);
            }
            return Some(i);
        }
        i = i + 1;
    }
    proof {
        assert(v@.take(v@.len() as int) =~= v@);
    }
    None
}

/// The first index found in a prefix is the first index of the whole.
pub proof fn lemma_first_index_prefix(s: Seq<char>, c: char, k: int)
    requires
        0 <= k <= s.len(),
        first_index_of(s.take(k), c) is Some,
    ensures
        first_index_of(s, c) == first_index_of(s.take(k), c),
    decreases s.len() - k,
{
    if k < s.len() {
        assert(s.take(k + 1).drop_last() =~= s.take(k));
        lemma_first_index_prefix(s, c, k + 1);
    } else {
        assert(s.take(k) =~= s);
    }
}

/// Whether a text is one or two digits with a value in `1..=99`.
pub fn copy_number(v: &[char]) -> (r: bool)
    ensures
        r == is_copy_number(v@),
{
    if v.len() < 1 || v.len() > 2 {
        return false;
    }
    if !is_ascii_digit(v[0]) {
        return false;
    }
    if v.len() == 2 && !is_ascii_digit(v[1]) {
        return false;
    }
    if v[0] != '0' {
        return true;
    }
    if v.len() == 2 && v[1] != '0' {
        return true;
    }
    false
}

/// Decides whether a lowercased filename carries a common copy pattern:
/// "copy of X", "X - copy", "X copy.", "X (N)" with N in 1..=99, and the
/// Windows short-name form "X~1".
pub fn has_copy_pattern_lower(lower: &str) -> (r: bool)
    ensures
        r == copy_pattern(lower@),
{
    let l = chars_of(lower);
    let p1 = chars_of("copy of ");
    let p2 = chars_of(" - copy");
    let p3 = chars_of(" copy.");
    if contains_chars(l.as_slice(), p1.as_slice()) || contains_chars(l.as_slice(), p2.as_slice())
        || contains_chars(l.as_slice(), p3.as_slice()) {
        return true;
    }
    let paren = paren_number(l.as_slice());
    let tilde = tilde_suffix(l.as_slice());
    paren || tilde
}

/// Decides the ` (N)` numbering pattern.
pub fn paren_number(l: &[char]) -> (r: bool)
    ensures
        r == has_paren_number(l@),
{
    let n = l.len();
    let open = chars_of(" (");
    proof {
        reveal_strlit(" (");
    }
    match rfind_seq(l, open.as_slice()) {
        Some(start) => {
            proof {
                assert(open@.len() == 2);
            }
            let rest = crate::text::slice_from(l, start);
            match find_char(rest.as_slice(), ')') {
                Some(end) => {
                    proof {
                        assert(l@.subrange(start as int, start + 2) == " ("@);
                        assert(rest@[0] == ' ' && rest@[1] == '(');
                        lemma_first_index_is(rest@, ')', end as int);
                        assert(end >= 2);
                        assert(start + end < n);
                    }
                    let inside = crate::text::slice_range(l, start + 2, start + end);
                    let r = copy_number(inside.as_slice());
                    proof {
                        if r {
                            assert(is_last_occurrence(l@, " ("@, start as int));
                        } else {
                            assert forall|s: int| #[trigger]
                                is_last_occurrence(l@, " ("@, s) implies !match first_index_of(
                                l@.skip(s),
                                ')',
                            ) {
                                Some(e) => is_copy_number(l@.subrange(s + 2, s + e)),
                                None => false,
                            } by {
                                assert(s == start);
                            }
                        }
                    }
                    r
                },
                None => {
                    proof {
                        assert forall|s: int| #[trigger]
                            is_last_occurrence(l@, " ("@, s) implies !match first_index_of(
                            l@.skip(s),
                            ')',
                        ) {
                            Some(e) => is_copy_number(l@.subrange(s + 2, s + e)),
                            None => false,
                        } by {
                            assert(s == start);
                        }
                    }
                    false
                },
            }
        },
        None => {
            proof {
                assert forall|s: int| #[trigger] is_last_occurrence(l@, " ("@, s) implies false by {
                    assert(occurs_at(l@, open@, s));
                }
            }
            false
        },
    }
}

/// A first index found is a real occurrence at that position.
pub proof fn lemma_first_index_is(s: Seq<char>, c: char, i: int)
    requires
        first_index_of(s, c) == Some(i),
    ensures
        0 <= i < s.len(),
        s[i] == c,
        forall|k: int| 0 <= k < i ==> s[k] != c,
    decreases s.len(),
{
    if s.len() > 0 {
        match first_index_of(s.drop_last(), c) {
            Some(j) => {
                lemma_first_index_is(s.drop_last(), c, j);
                assert forall|k: int| 0 <= k < i implies s[k] != c by {
                    assert(s.drop_last()[k] == s[k]);
                }
            },
            None => {
                lemma_first_index_none(s.drop_last(), c);
                assert forall|k: int| 0 <= k < i implies s[k] != c by {
                    assert(s.drop_last()[k] == s[k]);
                }
            },
        }
    }
}

/// No first index means no occurrence.
pub proof fn lemma_first_index_none(s: Seq<char>, c: char)
    requires
        first_index_of(s, c) is None,
    ensures
        forall|k: int| 0 <= k < s.len() ==> s[k] != c,
    decreases s.len(),
{
    if s.len() > 0 {
        lemma_first_index_none(s.drop_last(), c);
        assert forall|k: int| 0 <= k < s.len() implies s[k] != c by {
            if k < s.len() - 1 {
                assert(s.drop_last()[k] == s[k]);
            }
        }
    }
}

/// Decides the Windows short-name collision pattern `X~1`, `X~2`, `X~3`.
pub fn tilde_suffix(l: &[char]) -> (r: bool)
    ensures
        r == has_tilde_suffix(l@),
{
    let t = chars_of("~");
    if !contains_chars(l, t.as_slice()) {
        return false;
    }
    let stem = match find_char(l, '.') {
        Some(i) => crate::text::slice_range(l, 0, i),
        None => crate::text::slice_range(l, 0, l.len()),
    };
    proof {
        assert(l@.subrange(0, l@.len() as int) =~= l@);
        assert(l@.subrange(0, l@.len() as int) == l@);
    }
    proof {
        reveal_strlit("~1");
        reveal_strlit("~2");
        reveal_strlit("~3");
        match first_index_of(l@, '.') {
            Some(i) => {
                assert(l@.subrange(0, i) =~= l@.take(i));
            },
            None => {},
        }
    }
    let s1 = chars_of("~1");
    let s2 = chars_of("~2");
    let s3 = chars_of("~3");
    ends_with_chars(stem.as_slice(), s1.as_slice()) || ends_with_chars(
        stem.as_slice(),
        s2.as_slice(),
    ) || ends_with_chars(stem.as_slice(), s3.as_slice())
}

impl FileEntry {
    /// Create a new FileEntry with all fields specified.
    pub fn new(
        path: String,
        size: u64,
        name: String,
        extension: Option<String>,
        modified_at: i64,
        inode: Option<u64>,
    ) -> (r: Self)
        ensures
            r.path == path,
            r.size == size,
            r.name == name,
            r.extension == extension,
            r.modified_at == modified_at,
            r.inode == inode,
    {
        FileEntry { path, size, name, extension, modified_at, inode }
    }

    /// Create a FileEntry from a path and the file's metadata: the name is the
    /// path's last component (empty when there is none) and the extension its
    /// lowercased extension.
    pub fn from_metadata(path: String, size: u64, modified_at: i64) -> (r: Self)
        ensures
            r.path == path,
            r.size == size,
            r.modified_at == modified_at,
            r.inode is None,
            r.name@ == match file_name(path@) {
                Some(n) => n,
                None => Seq::<char>::empty(),
            },
            match extension(path@) {
                Some(e) => r.extension matches Some(x) && x@ == lowercase(e),
                None => r.extension is None,
            },
    {
        let p = chars_of(path.as_str());
        let name = match path_file_name(p.as_slice()) {
            Some(n) => string_of(n.as_slice()),
            None => String::new(),
        };
        let extension = match path_extension(p.as_slice()) {
            Some(e) => {
                let es = string_of(e.as_slice());
                Some(to_lowercase(es.as_str()))
            },
            None => None,
        };
        FileEntry { path, size, name, extension, modified_at, inode: None }
    }

    /// Path depth (number of components).
    pub fn path_depth(&self) -> (r: usize)
        ensures
            r == depth(self.path@),
    {
        let p = chars_of(self.path.as_str());
        path_depth_of(p.as_slice())
    }

    /// Whether the filename contains common copy patterns.
    ///
    /// Detects: "Copy of X", "X - Copy", "X (N)" for N=1..99, and Windows "X~1" style.
    pub fn has_copy_pattern(&self) -> (r: bool)
        ensures
            r == copy_pattern(lowercase(self.name@)),
    {
        let lower = to_lowercase(self.name.as_str());
        has_copy_pattern_lower(lower.as_str())
    }
}

} // verus!
