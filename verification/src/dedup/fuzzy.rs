//! Filename normalization for fuzzy duplicate detection.
//!
//! Copies of a file are often renamed: "report (1).pdf", "Copy of report.pdf",
//! "report - Copy.pdf". Normalizing strips those patterns so that similar
//! names compare equal or nearly equal.

use vstd::prelude::*;
use crate::dedup::file_entry::{FileEntry, first_index_of, find_char, is_last_occurrence, lemma_first_index_is};
use crate::path::{last_dot, find_last_dot};
use crate::text::{
    all_ascii_digits, all_digits, chars_of, contains_seq, ends_with_chars, lemma_trim_end_prefix,
    lowercase, occurs_at, rfind_seq, slice_from, slice_range, starts_with_chars, string_of,
    to_lowercase, trim, trim_end, trim_end_len, trimmed, is_ascii_text, ascii_lower, ascii_lower_char,
    trim_start, is_ws, eq_chars,
};

verus! {

broadcast use vstd::string::group_string_axioms;

/// The two characters that open a numbered-copy suffix.
pub open spec fn paren_open() -> Seq<char> {
    seq![' ', '(']
}

/// Whether `rest` (what follows a ` (`) is digits closed by a single final `)`.
pub open spec fn is_number_close(rest: Seq<char>) -> bool {
    &&& rest.len() >= 1
    &&& first_index_of(rest, ')') == Some(rest.len() - 1)
    &&& all_digits(rest.drop_last())
}

/// `s` with trailing ` (N)` groups removed, N being any run of ASCII digits.
///
/// Trailing whitespace is dropped before each look; once no group is found
/// the text is returned as it stood before that look.
pub open spec fn strip_paren(s: Seq<char>) -> Seq<char>
    decreases s.len(),
{
    let t = trim_end(s);
    if exists|o: int| is_last_occurrence(t, paren_open(), o) {
        let o = choose|o: int| is_last_occurrence(t, paren_open(), o);
        if is_number_close(t.skip(o + 2)) {
            proof {
                lemma_trim_end_prefix(s);
            }
            strip_paren(t.take(o))
        } else {
            s
        }
    } else {
        s
    }
}

/// A lowercased filename normalized for comparison: extension dropped (from
/// the last `.`), a leading "copy of " and a trailing " - copy" removed,
/// trailing " (N)" groups stripped, surrounding whitespace trimmed.
pub open spec fn normalize_lower(l: Seq<char>) -> Seq<char> {
    let stem = match last_dot(l) {
        Some(p) => l.take(p),
        None => l,
    };
    let a = if stem.len() >= 8 && stem.take(8) == "copy of "@ {
        stem.skip(8)
    } else {
        stem
    };
    let b = if a.len() >= 7 && a.skip(a.len() - 7) == " - copy"@ {
        a.take(a.len() - 7)
    } else {
        a
    };
    trim(strip_paren(b))
}

/// Two last occurrences are the same position.
proof fn lemma_last_occurrence_unique(t: Seq<char>, n: Seq<char>, i: int, j: int)
    requires
        is_last_occurrence(t, n, i),
        is_last_occurrence(t, n, j),
    ensures
        i == j,
{
    if i < j {
        assert(!occurs_at(t, n, j));
    } else if j < i {
        assert(!occurs_at(t, n, i));
    }
}

/// Strip trailing " (N)" patterns from a string.
pub fn regex_lite_strip_paren(s: &str) -> (r: String)
    ensures
        r@ == strip_paren(s@),
{
    let mut result: Vec<char> = chars_of(s);
    let needle: Vec<char> = vec![' ', '('];
    loop
        invariant
            strip_paren(result@) == strip_paren(s@),
            needle@ == paren_open(),
        ensures
            result@ == strip_paren(s@),
        decreases result@.len(),
    {
        let k = trim_end_len(result.as_slice(), result.len());
        let t = slice_range(result.as_slice(), 0, k);
        proof {
            assert(result@.take(k as int) =~= result@.subrange(0, k as int));
            assert(result@.take(result@.len() as int) =~= result@);
            assert(t@ == trim_end(result@));
            lemma_trim_end_prefix(result@);
        }
        match rfind_seq(t.as_slice(), needle.as_slice()) {
            Some(open) => {
                proof {
                    assert(is_last_occurrence(t@, paren_open(), open as int));
                }
                let rest = slice_from(t.as_slice(), open + 2);
                match find_char(rest.as_slice(), ')') {
                    Some(close) => {
                        let inside = slice_range(rest.as_slice(), 0, close);
                        let digits = all_ascii_digits(inside.as_slice());
                        if digits && close == rest.len() - 1 {
                            proof {
                                let o = choose|o: int| is_last_occurrence(t@, paren_open(), o);
                                lemma_last_occurrence_unique(t@, paren_open(), o, open as int);
                                assert(inside@ =~= rest@.drop_last());
                                assert(is_number_close(rest@));
                            }
                            let next = slice_range(t.as_slice(), 0, open);
                            proof {
                                assert(next@ =~= t@.take(open as int));
                            }
                            result = next;
                            continue;
                        }
                        proof {
                            let o = choose|o: int| is_last_occurrence(t@, paren_open(), o);
                            lemma_last_occurrence_unique(t@, paren_open(), o, open as int);
                            if is_number_close(rest@) {
                                assert(inside@ =~= rest@.drop_last());
                            }
                        }
                    },
                    None => {
                        proof {
                            let o = choose|o: int| is_last_occurrence(t@, paren_open(), o);
                            lemma_last_occurrence_unique(t@, paren_open(), o, open as int);
                        }
                    },
                }
            },
            None => {
                proof {
                    if exists|o: int| is_last_occurrence(t@, paren_open(), o) {
                        let o = choose|o: int| is_last_occurrence(t@, paren_open(), o);
                        assert(occurs_at(t@, paren_open(), o));
                    }
                }
            },
        }
        break ;
    }
    string_of(result.as_slice())
}

/// Normalize an already lowercased filename for fuzzy comparison.
pub fn normalize_lower_name(lower: &str) -> (r: String)
    ensures
        r@ == normalize_lower(lower@),
{
    let l = chars_of(lower);
    let stem: Vec<char> = match find_last_dot(l.as_slice()) {
        Some(p) => {
            let v = slice_range(l.as_slice(), 0, p);
            proof {
                assert(v@ =~= l@.take(p as int));
            }
            v
        },
        None => l,
    };
    let prefix = chars_of("copy of ");
    let suffix = chars_of(" - copy");
    proof {
        reveal_strlit("copy of ");
        reveal_strlit(" - copy");
    }
    let a: Vec<char> = if starts_with_chars(stem.as_slice(), prefix.as_slice()) {
        slice_from(stem.as_slice(), 8)
    } else {
        stem
    };
    let b: Vec<char> = if ends_with_chars(a.as_slice(), suffix.as_slice()) {
        let v = slice_range(a.as_slice(), 0, a.len() - 7);
        proof {
            assert(v@ =~= a@.take(a@.len() - 7));
        }
        v
    } else {
        a
    };
    let bs = string_of(b.as_slice());
    let stripped = regex_lite_strip_paren(bs.as_str());
    let sc = chars_of(stripped.as_str());
    let t = trimmed(sc.as_slice());
    string_of(t.as_slice())
}

/// Normalize a filename for fuzzy comparison: lowercase it, then strip the
/// extension and the common copy patterns ("Copy of X", "X (1)", "X - Copy")
/// and surrounding whitespace.
pub fn normalize_name(name: &str) -> (r: String)
    ensures
        r@ == normalize_lower(lowercase(name@)),
        is_ascii_text(name@) ==> r@ == normalize_lower(ascii_lower(name@)),
{
    let lower = to_lowercase(name);
    normalize_lower_name(lower.as_str())
}


// ───────────────────────────── laws ─────────────────────────────

/// ASCII upper-casing of one character (`char::to_ascii_uppercase`).
pub open spec fn ascii_upper_char(c: char) -> char {
    if 'a' <= c && c <= 'z' {
        ((c as u8) - 32u8) as char
    } else {
        c
    }
}

/// ASCII upper-casing of a text (`str::to_ascii_uppercase`).
pub open spec fn ascii_upper(s: Seq<char>) -> Seq<char> {
    s.map_values(|c: char| ascii_upper_char(c))
}

/// No character of `s` is an ASCII capital.
pub open spec fn no_ascii_upper(s: Seq<char>) -> bool {
    forall|i: int| 0 <= i < s.len() ==> !('A' <= #[trigger] s[i] && s[i] <= 'Z')
}

proof fn lemma_char_fold(c: char)
    requires
        c <= '\u{7f}',
    ensures
        ascii_upper_char(c) <= '\u{7f}',
        ascii_lower_char(ascii_upper_char(c)) == ascii_lower_char(c),
        !('A' <= ascii_lower_char(c) && ascii_lower_char(c) <= 'Z'),
{
}

proof fn lemma_lower_concat(a: Seq<char>, b: Seq<char>)
    ensures
        ascii_lower(a + b) == ascii_lower(a) + ascii_lower(b),
{
    assert(ascii_lower(a + b) =~= ascii_lower(a) + ascii_lower(b));
}

/// The last `.` of `x . e` is the one after `x` when `e` has none.
proof fn lemma_last_dot_before(x: Seq<char>, e: Seq<char>)
    requires
        forall|i: int| 0 <= i < e.len() ==> e[i] != '.',
    ensures
        last_dot(x + seq!['.'] + e) == Some(x.len() as int),
    decreases e.len(),
{
    let w = x + seq!['.'] + e;
    if e.len() == 0 {
        assert(w =~= x.push('.'));
    } else {
        assert(w.drop_last() =~= x + seq!['.'] + e.drop_last());
        lemma_last_dot_before(x, e.drop_last());
    }
}

/// The last `.` lies within the name.
proof fn lemma_last_dot_range(l: Seq<char>)
    ensures
        last_dot(l) matches Some(p) ==> 0 <= p < l.len(),
    decreases l.len(),
{
    if l.len() > 0 && l.last() != '.' {
        lemma_last_dot_range(l.drop_last());
    }
}

/// Case does not matter: an ASCII name and its ASCII upper-casing normalize
/// alike (with `normalize_name`, whose result on ASCII text is
/// `normalize_lower(ascii_lower(..))`).
pub proof fn lemma_normalize_ignores_case(s: Seq<char>)
    requires
        is_ascii_text(s),
    ensures
        is_ascii_text(ascii_upper(s)),
        normalize_lower(ascii_lower(ascii_upper(s))) == normalize_lower(ascii_lower(s)),
{
    assert forall|i: int| 0 <= i < s.len() implies ascii_lower(ascii_upper(s))[i] == ascii_lower(s)[i] by {
        lemma_char_fold(s[i]);
    }
    assert forall|i: int| 0 <= i < ascii_upper(s).len() implies (#[trigger] ascii_upper(s)[i]) <= '\u{7f}' by {
        lemma_char_fold(s[i]);
    }
    assert(ascii_lower(ascii_upper(s)) =~= ascii_lower(s));
}

/// The extension does not matter: `s.e1` and `s.e2` normalize alike when
/// neither extension holds a `.`.
pub proof fn lemma_normalize_ignores_extension(s: Seq<char>, e1: Seq<char>, e2: Seq<char>)
    requires
        forall|i: int| 0 <= i < e1.len() ==> e1[i] != '.',
        forall|i: int| 0 <= i < e2.len() ==> e2[i] != '.',
    ensures
        normalize_lower(ascii_lower(s + seq!['.'] + e1)) == normalize_lower(ascii_lower(s + seq!['.'] + e2)),
{
    let ls = ascii_lower(s);
    let l1 = ascii_lower(e1);
    let l2 = ascii_lower(e2);
    lemma_lower_concat(s + seq!['.'], e1);
    lemma_lower_concat(s, seq!['.']);
    lemma_lower_concat(s + seq!['.'], e2);
    assert(ascii_lower(seq!['.']) =~= seq!['.']);
    assert forall|i: int| 0 <= i < l1.len() implies l1[i] != '.' by {
        assert(e1[i] != '.');
    }
    assert forall|i: int| 0 <= i < l2.len() implies l2[i] != '.' by {
        assert(e2[i] != '.');
    }
    lemma_last_dot_before(ls, l1);
    lemma_last_dot_before(ls, l2);
    assert((ls + seq!['.'] + l1).take(ls.len() as int) =~= ls);
    assert((ls + seq!['.'] + l2).take(ls.len() as int) =~= ls);
}

/// `trim_start` keeps a suffix, which starts with no whitespace.
proof fn lemma_trim_start_suffix(s: Seq<char>)
    ensures
        trim_start(s).len() <= s.len(),
        trim_start(s) == s.skip(s.len() - trim_start(s).len()),
        trim_start(s).len() > 0 ==> !is_ws(trim_start(s)[0]),
    decreases s.len(),
{
    if s.len() > 0 && is_ws(s[0]) {
        lemma_trim_start_suffix(s.drop_first());
        assert(s.drop_first().skip(s.drop_first().len() - trim_start(s).len()) =~= s.skip(s.len() - trim_start(s).len()));
    } else {
        assert(s.skip(0) =~= s);
    }
}

/// `trim_end` leaves no trailing whitespace.
proof fn lemma_trim_end_last(s: Seq<char>)
    ensures
        trim_end(s).len() > 0 ==> !is_ws(trim_end(s).last()),
    decreases s.len(),
{
    if s.len() > 0 && is_ws(s.last()) {
        lemma_trim_end_last(s.drop_last());
    }
}

/// Trimming twice is trimming once.
proof fn lemma_trim_idempotent(x: Seq<char>)
    ensures
        trim(trim(x)) == trim(x),
{
    let z = trim_start(x);
    let y = trim_end(z);
    lemma_trim_start_suffix(x);
    lemma_trim_end_prefix(z);
    lemma_trim_end_last(z);
    if y.len() > 0 {
        assert(y[0] == z[0]);
    }
    assert(trim_start(y) == y);
    assert(trim_end(y) == y);
}

/// `strip_paren` keeps a prefix.
proof fn lemma_strip_paren_prefix(s: Seq<char>)
    ensures
        strip_paren(s).len() <= s.len(),
        strip_paren(s) == s.take(strip_paren(s).len() as int),
    decreases s.len(),
{
    let t = trim_end(s);
    lemma_trim_end_prefix(s);
    if exists|o: int| is_last_occurrence(t, paren_open(), o) {
        let o = choose|o: int| is_last_occurrence(t, paren_open(), o);
        if is_number_close(t.skip(o + 2)) {
            assert(occurs_at(t, paren_open(), o));
            lemma_strip_paren_prefix(t.take(o));
            let r = strip_paren(t.take(o));
            assert(r == t.take(o).take(r.len() as int));
            assert(t.take(o).take(r.len() as int) =~= s.take(r.len() as int));
        } else {
            assert(s.take(s.len() as int) =~= s);
        }
    } else {
        assert(s.take(s.len() as int) =~= s);
    }
}

/// A normalized name is trimmed and, when the lowercased name has no ASCII
/// capitals (as the ASCII folding of any text), holds none either.
pub proof fn lemma_normalized_shape(l: Seq<char>)
    ensures
        trim(normalize_lower(l)) == normalize_lower(l),
        no_ascii_upper(l) ==> no_ascii_upper(normalize_lower(l)),
{
    let stem = match last_dot(l) {
        Some(p) => l.take(p),
        None => l,
    };
    let a = if stem.len() >= 8 && stem.take(8) == "copy of "@ {
        stem.skip(8)
    } else {
        stem
    };
    let b = if a.len() >= 7 && a.skip(a.len() - 7) == " - copy"@ {
        a.take(a.len() - 7)
    } else {
        a
    };
    let sp = strip_paren(b);
    lemma_trim_idempotent(sp);
    if no_ascii_upper(l) {
        lemma_last_dot_range(l);
        assert(no_ascii_upper(stem));
        assert(no_ascii_upper(a));
        assert(no_ascii_upper(b));
        lemma_strip_paren_prefix(b);
        assert(no_ascii_upper(sp));
        let z = trim_start(sp);
        lemma_trim_start_suffix(sp);
        assert(no_ascii_upper(z));
        lemma_trim_end_prefix(z);
        assert(no_ascii_upper(trim_end(z)));
    }
}

/// `s` ends with a numbered-copy group ` (N)`, N a run of ASCII digits.
pub open spec fn ends_with_copy_number(s: Seq<char>) -> bool {
    exists|o: int| occurs_at(s, paren_open(), o) && is_number_close(#[trigger] s.skip(o + 2))
}

/// A group that ends the text is the last ` (` in it.
proof fn lemma_group_is_last(t: Seq<char>, o: int)
    requires
        occurs_at(t, paren_open(), o),
        is_number_close(t.skip(o + 2)),
    ensures
        is_last_occurrence(t, paren_open(), o),
{
    let rest = t.skip(o + 2);
    lemma_first_index_is(rest, ')', rest.len() - 1);
    assert forall|k: int| o < k implies !occurs_at(t, paren_open(), k) by {
        if occurs_at(t, paren_open(), k) {
            assert(t.subrange(k, k + 2)[0] == ' ');
            assert(t[k] == ' ');
            if k == o + 1 {
                assert(t.subrange(o, o + 2)[1] == '(');
            } else {
                assert(rest.drop_last()[k - o - 2] == t[k]);
            }
        }
    }
}

/// What `strip_paren` returns no longer ends (trailing whitespace aside)
/// with a numbered-copy group.
proof fn lemma_strip_paren_done(x: Seq<char>)
    ensures
        !ends_with_copy_number(trim_end(strip_paren(x))),
    decreases x.len(),
{
    let t = trim_end(x);
    lemma_trim_end_prefix(x);
    if exists|o: int| is_last_occurrence(t, paren_open(), o) {
        let o = choose|o: int| is_last_occurrence(t, paren_open(), o);
        if is_number_close(t.skip(o + 2)) {
            lemma_strip_paren_done(t.take(o));
            return;
        }
    }
    // Here strip_paren(x) == x.
    if ends_with_copy_number(t) {
        let o2 = choose|o2: int| occurs_at(t, paren_open(), o2) && is_number_close(#[trigger] t.skip(o2 + 2));
        lemma_group_is_last(t, o2);
        let o = choose|o: int| is_last_occurrence(t, paren_open(), o);
        lemma_last_occurrence_unique(t, paren_open(), o, o2);
    }
}

/// Dropping a prefix and then trailing whitespace is dropping trailing
/// whitespace and then the prefix (or leaves nothing).
proof fn lemma_trim_end_skip(s: Seq<char>, d: int)
    requires
        0 <= d <= s.len(),
    ensures
        d <= trim_end(s).len() ==> trim_end(s.skip(d)) == trim_end(s).skip(d),
        d > trim_end(s).len() ==> trim_end(s.skip(d)).len() == 0,
    decreases s.len(),
{
    lemma_trim_end_prefix(s);
    if d == s.len() {
        assert(s.skip(d) =~= Seq::<char>::empty());
        if d <= trim_end(s).len() {
            assert(trim_end(s).skip(d) =~= Seq::<char>::empty());
        }
    } else if s.len() > 0 && is_ws(s.last()) {
        assert(s.skip(d).drop_last() =~= s.drop_last().skip(d));
        lemma_trim_end_skip(s.drop_last(), d);
    } else {
        assert(s.skip(d).last() == s.last());
    }
}

/// A normalized name never ends with a numbered-copy group ` (N)`.
pub proof fn lemma_normalized_has_no_copy_number(l: Seq<char>)
    ensures
        !ends_with_copy_number(normalize_lower(l)),
{
    let stem = match last_dot(l) {
        Some(p) => l.take(p),
        None => l,
    };
    let a = if stem.len() >= 8 && stem.take(8) == "copy of "@ {
        stem.skip(8)
    } else {
        stem
    };
    let b = if a.len() >= 7 && a.skip(a.len() - 7) == " - copy"@ {
        a.take(a.len() - 7)
    } else {
        a
    };
    let sp = strip_paren(b);
    let t = trim_end(sp);
    lemma_strip_paren_done(b);
    lemma_trim_start_suffix(sp);
    let z = trim_start(sp);
    let d = sp.len() - z.len();
    lemma_trim_end_skip(sp, d);
    let r = trim_end(z);
    assert(r == normalize_lower(l));
    if ends_with_copy_number(r) {
        let o = choose|o: int| occurs_at(r, paren_open(), o) && is_number_close(#[trigger] r.skip(o + 2));
        assert(d <= t.len());
        assert(r =~= t.skip(d));
        assert(t.subrange(o + d, o + d + 2) =~= r.subrange(o, o + 2));
        assert(t.skip(o + d + 2) =~= r.skip(o + 2));
        assert(occurs_at(t, paren_open(), o + d));
    }
}

/// ASCII folding leaves no ASCII capitals.
pub proof fn lemma_folded_has_no_upper(s: Seq<char>)
    ensures
        no_ascii_upper(ascii_lower(s)),
{
    assert forall|i: int| 0 <= i < ascii_lower(s).len() implies !('A' <= #[trigger] ascii_lower(s)[i] && ascii_lower(s)[i] <= 'Z') by {
        let c = s[i];
        if 'A' <= c && c <= 'Z' {
            assert(ascii_lower_char(c) == ((c as u8) + 32u8) as char);
        }
    }
}


/// Most files of one extension that are compared pairwise; the rest of a
/// larger group is left out.
pub const MAX_BUCKET_SIZE: usize = 500;

/// The extension of a file, as text.
pub open spec fn ext_key(f: FileEntry) -> Option<Seq<char>> {
    match f.extension {
        Some(e) => Some(e@),
        None => None,
    }
}

/// The positions below `n` of the files with extension `k`, in order.
pub open spec fn members_below(files: Seq<FileEntry>, k: Option<Seq<char>>, n: int) -> Seq<usize>
    decreases n,
{
    if n <= 0 {
        Seq::empty()
    } else if ext_key(files[n - 1]) == k {
        members_below(files, k, n - 1).push((n - 1) as usize)
    } else {
        members_below(files, k, n - 1)
    }
}

/// The extensions of the first `n` files, each once, in order of first
/// appearance.
pub open spec fn keys_below(files: Seq<FileEntry>, n: int) -> Seq<Option<Seq<char>>>
    decreases n,
{
    if n <= 0 {
        Seq::empty()
    } else if keys_below(files, n - 1).contains(ext_key(files[n - 1])) {
        keys_below(files, n - 1)
    } else {
        keys_below(files, n - 1).push(ext_key(files[n - 1]))
    }
}

/// A group cut to `MAX_BUCKET_SIZE`.
pub open spec fn capped(m: Seq<usize>) -> Seq<usize> {
    if m.len() > MAX_BUCKET_SIZE {
        m.take(MAX_BUCKET_SIZE as int)
    } else {
        m
    }
}

/// For the extensions `ks`, in order, the capped groups of files that share
/// one, leaving out groups of fewer than two files.
pub open spec fn kept_buckets(files: Seq<FileEntry>, ks: Seq<Option<Seq<char>>>) -> Seq<Seq<usize>>
    decreases ks.len(),
{
    if ks.len() == 0 {
        Seq::empty()
    } else {
        let rest = kept_buckets(files, ks.drop_last());
        let m = members_below(files, ks.last(), files.len() as int);
        if m.len() >= 2 {
            rest.push(capped(m))
        } else {
            rest
        }
    }
}

/// The extension groups of a file list that the fuzzy name search compares
/// within.
pub open spec fn extension_buckets_of(files: Seq<FileEntry>) -> Seq<Seq<usize>> {
    kept_buckets(files, keys_below(files, files.len() as int))
}

/// Whether two files have the same extension (or both none).
fn same_extension(a: &FileEntry, b: &FileEntry) -> (r: bool)
    ensures
        r == (ext_key(*a) == ext_key(*b)),
{
    match (&a.extension, &b.extension) {
        (Some(x), Some(y)) => {
            let xs = chars_of(x.as_str());
            let ys = chars_of(y.as_str());
            eq_chars(xs.as_slice(), ys.as_slice())
        },
        (None, None) => true,
        _ => false,
    }
}

/// The keys seen so far are distinct.
proof fn lemma_keys_distinct(files: Seq<FileEntry>, n: int)
    requires
        0 <= n <= files.len(),
    ensures
        forall|a: int, b: int|
            0 <= a < b < keys_below(files, n).len() ==> keys_below(files, n)[a] != keys_below(files, n)[b],
    decreases n,
{
    if n > 0 {
        lemma_keys_distinct(files, n - 1);
        let prev = keys_below(files, n - 1);
        if !prev.contains(ext_key(files[n - 1])) {
            assert forall|a: int| 0 <= a < prev.len() implies prev[a] != ext_key(files[n - 1]) by {
                if prev[a] == ext_key(files[n - 1]) {
                    assert(prev.contains(ext_key(files[n - 1])));
                }
            }
        }
    }
}

/// Every file's extension is among the keys seen up to it.
proof fn lemma_key_seen(files: Seq<FileEntry>, n: int, q: int)
    requires
        0 <= q < n <= files.len(),
    ensures
        keys_below(files, n).contains(ext_key(files[q])),
    decreases n,
{
    if q < n - 1 {
        lemma_key_seen(files, n - 1, q);
        let prev = keys_below(files, n - 1);
        if !prev.contains(ext_key(files[n - 1])) {
            let w = choose|i: int| 0 <= i < prev.len() && prev[i] == ext_key(files[q]);
            assert(keys_below(files, n)[w] == ext_key(files[q]));
        }
    } else {
        let prev = keys_below(files, n - 1);
        if !prev.contains(ext_key(files[n - 1])) {
            assert(keys_below(files, n)[prev.len() as int] == ext_key(files[q]));
        }
    }
}

/// Group the files by extension, in order of each extension's first
/// appearance, each group holding its files' positions in order and cut to
/// `MAX_BUCKET_SIZE`; groups of fewer than two files are left out.
pub fn extension_buckets(files: &[FileEntry]) -> (r: Vec<Vec<usize>>)
    ensures
        r@.len() == extension_buckets_of(files@).len(),
        forall|j: int| 0 <= j < r@.len() ==> #[trigger] r@[j]@ == extension_buckets_of(files@)[j],
{
    let mut reps: Vec<usize> = Vec::new();
    let mut groups: Vec<Vec<usize>> = Vec::new();
    let mut i: usize = 0;
    while i < files.len()
        invariant
            0 <= i <= files@.len(),
            reps@.len() == groups@.len(),
            reps@.len() == keys_below(files@, i as int).len(),
            forall|g: int| 0 <= g < reps@.len() ==> #[trigger] reps@[g] < i
                && ext_key(files@[reps@[g] as int]) == keys_below(files@, i as int)[g],
            forall|g: int| 0 <= g < groups@.len() ==> #[trigger] groups@[g]@
                == members_below(files@, keys_below(files@, i as int)[g], i as int),
        decreases files@.len() - i,
    {
        proof {
            lemma_keys_distinct(files@, i as int);
        }
        let ghost ks = keys_below(files@, i as int);
        let ghost key = ext_key(files@[i as int]);
        let mut found: Option<usize> = None;
        let mut g: usize = 0;
        while g < reps.len()
            invariant
                0 <= g <= reps@.len(),
                i < files@.len(),
                key == ext_key(files@[i as int]),
                reps@.len() == ks.len(),
                forall|h: int| 0 <= h < reps@.len() ==> #[trigger] reps@[h] < i
                    && ext_key(files@[reps@[h] as int]) == ks[h],
                match found {
                    Some(h) => h < g && ks[h as int] == key,
                    None => forall|h: int| 0 <= h < g ==> ks[h] != key,
                },
            decreases reps@.len() - g,
        {
            let rep = reps[g];
            let same = same_extension(&files[rep], &files[i]);
            proof {
                assert(ext_key(files@[rep as int]) == ks[g as int]);
                if same {
                    assert(ks[g as int] == key);
                } else {
                    assert(ks[g as int] != key);
                }
            }
            if found.is_none() && same {
                found = Some(g);
            }
            g = g + 1;
        }
        let ghost old_groups = groups@;
        match found {
            Some(h) => {
                let mut grp = groups.remove(h);
                grp.push(i);
                groups.insert(h, grp);
                proof {
                    assert(ks.contains(key));
                    assert(keys_below(files@, i + 1) == ks);
                    assert forall|q: int| 0 <= q < groups@.len() implies #[trigger] groups@[q]@
                        == members_below(files@, keys_below(files@, i + 1)[q], i + 1) by {
                        if q == h {
                            assert(groups@[q] == grp);
                        } else {
                            assert(ks[q] != key);
                            assert(groups@[q] == old_groups[q]);
                        }
                    }
                }
            },
            None => {
                reps.push(i);
                let mut grp: Vec<usize> = Vec::new();
                grp.push(i);
                groups.push(grp);
                proof {
                    assert(!ks.contains(key));
                    assert(keys_below(files@, i + 1) == ks.push(key));
                    assert(members_below(files@, key, i as int).len() == 0) by {
                        lemma_members_absent(files@, key, i as int);
                    }
                    assert(members_below(files@, key, i + 1) =~= seq![i]);
                    assert forall|q: int| 0 <= q < groups@.len() implies #[trigger] groups@[q]@
                        == members_below(files@, keys_below(files@, i + 1)[q], i + 1) by {
                        if q < ks.len() {
                            assert(groups@[q] == old_groups[q]);
                            assert(ks[q] != key);
                        }
                    }
                }
            },
        }
        i = i + 1;
    }
    let ghost ks = keys_below(files@, files@.len() as int);
    let mut out: Vec<Vec<usize>> = Vec::new();
    let mut g: usize = 0;
    while g < groups.len()
        invariant
            0 <= g <= groups@.len(),
            groups@.len() == ks.len(),
            i == files@.len(),
            ks == keys_below(files@, i as int),
            forall|q: int| 0 <= q < groups@.len() ==> #[trigger] groups@[q]@
                == members_below(files@, ks[q], i as int),
            out@.len() == kept_buckets(files@, ks.take(g as int)).len(),
            forall|j: int| 0 <= j < out@.len() ==> #[trigger] out@[j]@ == kept_buckets(files@, ks.take(g as int))[j],
        decreases groups@.len() - g,
    {
        assert(ks.take(g + 1).drop_last() =~= ks.take(g as int));
        if groups[g].len() >= 2 {
            let n = if groups[g].len() > MAX_BUCKET_SIZE { MAX_BUCKET_SIZE } else { groups[g].len() };
            let mut b: Vec<usize> = Vec::new();
            let mut k: usize = 0;
            while k < n
                invariant
                    0 <= k <= n,
                    g < groups@.len(),
                    n <= groups@[g as int]@.len(),
                    b@ == groups@[g as int]@.take(k as int),
                decreases n - k,
            {
                b.push(groups[g][k]);
                assert(groups@[g as int]@.take(k + 1) =~= groups@[g as int]@.take(k as int).push(groups@[g as int]@[k as int]));
                k = k + 1;
            }
            proof {
                if groups@[g as int]@.len() <= MAX_BUCKET_SIZE {
                    assert(b@ =~= groups@[g as int]@);
                }
            }
            out.push(b);
        }
        g = g + 1;
    }
    assert(ks.take(groups@.len() as int) =~= ks);
    out
}

/// A key not among those seen so far has no members yet.
proof fn lemma_members_absent(files: Seq<FileEntry>, k: Option<Seq<char>>, n: int)
    requires
        0 <= n <= files.len(),
        !keys_below(files, n).contains(k),
    ensures
        members_below(files, k, n).len() == 0,
    decreases n,
{
    if n > 0 {
        if ext_key(files[n - 1]) == k {
            lemma_key_seen(files, n, n - 1);
        }
        lemma_keys_monotone(files, n - 1);
        lemma_members_absent(files, k, n - 1);
    }
}

/// The keys of a shorter prefix are among those of a longer one.
proof fn lemma_keys_monotone(files: Seq<FileEntry>, n: int)
    requires
        0 <= n < files.len(),
    ensures
        forall|k: Option<Seq<char>>| keys_below(files, n).contains(k) ==> keys_below(files, n + 1).contains(k),
{
    let prev = keys_below(files, n);
    if !prev.contains(ext_key(files[n])) {
        assert forall|k: Option<Seq<char>>| prev.contains(k) implies keys_below(files, n + 1).contains(k) by {
            let w = choose|i: int| 0 <= i < prev.len() && prev[i] == k;
            assert(keys_below(files, n + 1)[w] == k);
        }
    }
}

} // verus!
