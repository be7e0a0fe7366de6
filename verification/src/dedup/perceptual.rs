//! Perceptual duplicate matching: which files are images, their perceptual
//! hashes, and the pairs of images whose hashes differ in few bits.

use vstd::prelude::*;
use crate::dedup::file_entry::FileEntry;
use crate::text::{chars_of, eq_chars, lowercase, to_lowercase};

verus! {

broadcast use vstd::string::group_string_axioms;

/// A perceptual match between two images.
#[derive(Debug, Clone)]
pub struct PerceptualMatch {
    /// Index of first image in the input slice.
    pub idx_a: usize,
    /// Index of second image in the input slice.
    pub idx_b: usize,
    /// Hamming distance (lower = more similar, 0 = identical).
    pub distance: u32,
}

/// Lowercase image file extensions recognized by the perceptual matcher.
pub open spec fn is_image_ext(l: Seq<char>) -> bool {
    ||| l == "jpg"@
    ||| l == "jpeg"@
    ||| l == "png"@
    ||| l == "webp"@
    ||| l == "bmp"@
    ||| l == "gif"@
    ||| l == "tiff"@
    ||| l == "tif"@
}

/// Whether `a` holds exactly the characters of `lit`.
fn is_text(a: &[char], lit: &str) -> (r: bool)
    ensures
        r == (a@ == lit@),
{
    let b = chars_of(lit);
    eq_chars(a, b.as_slice())
}

/// Check if an already lowercased extension indicates an image.
pub fn is_image_lower(l: &str) -> (r: bool)
    ensures
        r == is_image_ext(l@),
{
    let v = chars_of(l);
    let a = v.as_slice();
    is_text(a, "jpg") || is_text(a, "jpeg") || is_text(a, "png") || is_text(a, "webp") || is_text(
        a,
        "bmp",
    ) || is_text(a, "gif") || is_text(a, "tiff") || is_text(a, "tif")
}

/// Check if a file extension (in any case) indicates an image.
pub fn is_image(ext: &str) -> (r: bool)
    ensures
        r == is_image_ext(lowercase(ext@)),
{
    let l = to_lowercase(ext);
    is_image_lower(l.as_str())
}


/// Width and height, in bits, of the perceptual hash grid.
pub const IMAGE_HASH_SIZE: u32 = 16;

/// The perceptual hash of an image file: its content decoded in the format
/// its extension names, hashed on a `width` × `height` grid; `None` when it
/// does not decode.
pub uninterp spec fn image_hash(content: Seq<u8>, ext: Seq<char>, width: u32, height: u32) -> Option<Seq<u8>>;

/// Calls `image::ImageFormat::from_extension`, `image::load_from_memory_with_format`
/// and `image_hasher::HasherConfig::new().hash_size(width, height)`'s
/// `hash_image`, taking the hash's bytes; the result is the named
/// `image_hash` of the arguments.
#[verifier::external_body]
fn hash_image_bytes(content: &[u8], ext: &str, width: u32, height: u32) -> (r: Option<Vec<u8>>)
    requires
        1 <= width <= 1024,
        1 <= height <= 1024,
    ensures
        match r {
            Some(h) => image_hash(content@, ext@, width, height) == Some(h@),
            None => image_hash(content@, ext@, width, height) is None,
        },
{
    let format = image::ImageFormat::from_extension(ext)?;
    let img = image::load_from_memory_with_format(content, format).ok()?;
    let hasher = image_hasher::HasherConfig::new().hash_size(width, height).to_hasher();
    Some(hasher.hash_image(&img).as_bytes().to_vec())
}

/// The perceptual hash (16 × 16) of an image file's content, read under its
/// extension; `None` when it does not decode.
pub fn perceptual_hash(content: &[u8], ext: &str) -> (r: Option<Vec<u8>>)
    ensures
        match r {
            Some(h) => image_hash(content@, ext@, IMAGE_HASH_SIZE, IMAGE_HASH_SIZE) == Some(h@),
            None => image_hash(content@, ext@, IMAGE_HASH_SIZE, IMAGE_HASH_SIZE) is None,
        },
{
    hash_image_bytes(content, ext, IMAGE_HASH_SIZE, IMAGE_HASH_SIZE)
}

/// Whether a file's extension names an image format.
pub open spec fn is_image_file(f: FileEntry) -> bool {
    match f.extension {
        Some(e) => is_image_ext(lowercase(e@)),
        None => false,
    }
}

/// The positions of the image files, in order.
pub open spec fn image_positions(files: Seq<FileEntry>) -> Seq<usize>
    decreases files.len(),
{
    if files.len() == 0 {
        seq![]
    } else {
        let prev = image_positions(files.drop_last());
        if is_image_file(files.last()) {
            prev.push((files.len() - 1) as usize)
        } else {
            prev
        }
    }
}

/// The image files worth hashing: all of them, in order, when there are at
/// least two, and none otherwise (one image has nothing to match).
pub fn image_candidates(files: &[FileEntry]) -> (r: Vec<usize>)
    ensures
        image_positions(files@).len() >= 2 ==> r@ == image_positions(files@),
        image_positions(files@).len() < 2 ==> r@.len() == 0,
{
    let mut out: Vec<usize> = Vec::new();
    let mut i: usize = 0;
    while i < files.len()
        invariant
            0 <= i <= files@.len(),
            out@ == image_positions(files@.take(i as int)),
        decreases files@.len() - i,
    {
        proof {
            let t = files@.take(i + 1);
            assert(t.drop_last() =~= files@.take(i as int));
            assert(t.last() == files@[i as int]);
        }
        let img = match &files[i].extension {
            Some(e) => is_image(e.as_str()),
            None => false,
        };
        if img {
            out.push(i);
        }
        i = i + 1;
    }
    proof {
        assert(files@.take(files@.len() as int) =~= files@);
    }
    if out.len() < 2 {
        Vec::new()
    } else {
        out
    }
}

/// The number of set bits of a byte (`u8::count_ones`).
pub open spec fn ones(x: u8) -> nat {
    (x % 2 + x / 2 % 2 + x / 4 % 2 + x / 8 % 2 + x / 16 % 2 + x / 32 % 2 + x / 64 % 2 + x / 128 % 2) as nat
}

/// The Hamming distance of the first `n` bytes of two hashes.
pub open spec fn hamming_upto(a: Seq<u8>, b: Seq<u8>, n: int) -> nat
    decreases n,
{
    if n <= 0 {
        0
    } else {
        hamming_upto(a, b, n - 1) + ones(a[n - 1] ^ b[n - 1])
    }
}

/// The Hamming distance of two hashes, over the bytes they both have.
pub open spec fn hamming(a: Seq<u8>, b: Seq<u8>) -> nat {
    hamming_upto(a, b, if a.len() <= b.len() { a.len() as int } else { b.len() as int })
}

/// Set bits of a byte.
fn count_ones(x: u8) -> (r: u32)
    ensures
        r == ones(x),
        r <= 8,
{
    (x % 2 + x / 2 % 2 + x / 4 % 2 + x / 8 % 2 + x / 16 % 2 + x / 32 % 2 + x / 64 % 2 + x / 128 % 2) as u32
}

/// The Hamming distance of two hashes.
pub fn hash_distance(a: &[u8], b: &[u8]) -> (r: u32)
    requires
        a@.len() <= 0x1fff_ffff || b@.len() <= 0x1fff_ffff,
    ensures
        r == hamming(a@, b@),
{
    let n: usize = if a.len() <= b.len() { a.len() } else { b.len() };
    let mut d: u32 = 0;
    let mut i: usize = 0;
    while i < n
        invariant
            0 <= i <= n,
            n == (if a@.len() <= b@.len() { a@.len() } else { b@.len() }),
            n <= 0x1fff_ffff,
            d == hamming_upto(a@, b@, i as int),
            d <= 8 * i,
        decreases n - i,
    {
        let c = count_ones(a[i] ^ b[i]);
        d = d + c;
        i = i + 1;
    }
    d
}

/// The matches of image `x` with each later image of `rest`, in order: those
/// within `t` bits.
pub open spec fn matches_with(x: (usize, Seq<u8>), rest: Seq<(usize, Seq<u8>)>, t: u32) -> Seq<(usize, usize, nat)>
    decreases rest.len(),
{
    if rest.len() == 0 {
        seq![]
    } else {
        let prev = matches_with(x, rest.drop_last(), t);
        let d = hamming(x.1, rest.last().1);
        if d <= t {
            prev.push((x.0, rest.last().0, d))
        } else {
            prev
        }
    }
}

/// The matches among the first `i` images and the images after each, pair
/// by pair in order.
pub open spec fn matches_upto(h: Seq<(usize, Seq<u8>)>, t: u32, i: int) -> Seq<(usize, usize, nat)>
    decreases i,
{
    if i <= 0 {
        seq![]
    } else {
        matches_upto(h, t, i - 1) + matches_with(h[i - 1], h.subrange(i, h.len() as int), t)
    }
}

/// The hashed images as (position, hash bytes).
pub open spec fn hashes_view(h: Seq<(usize, Vec<u8>)>) -> Seq<(usize, Seq<u8>)> {
    h.map_values(|x: (usize, Vec<u8>)| (x.0, x.1@))
}

/// The matches as (first, second, distance).
pub open spec fn matches_view(m: Seq<PerceptualMatch>) -> Seq<(usize, usize, nat)> {
    m.map_values(|x: PerceptualMatch| (x.idx_a, x.idx_b, x.distance as nat))
}

/// Every pair of hashed images (in input order, first before second) whose
/// hashes differ in at most `threshold` bits, with that distance.
pub fn similar_image_pairs(hashes: &[(usize, Vec<u8>)], threshold: u32) -> (r: Vec<PerceptualMatch>)
    requires
        forall|k: int| 0 <= k < hashes@.len() ==> (#[trigger] hashes@[k]).1@.len() <= 0x1fff_ffff,
    ensures
        matches_view(r@) == matches_upto(hashes_view(hashes@), threshold, hashes@.len() as int),
{
    let ghost hv = hashes_view(hashes@);
    let mut out: Vec<PerceptualMatch> = Vec::new();
    let mut i: usize = 0;
    while i < hashes.len()
        invariant
            0 <= i <= hashes@.len(),
            hv == hashes_view(hashes@),
            forall|k: int| 0 <= k < hashes@.len() ==> (#[trigger] hashes@[k]).1@.len() <= 0x1fff_ffff,
            matches_view(out@) == matches_upto(hv, threshold, i as int),
        decreases hashes@.len() - i,
    {
        let ghost before = out@;
        let mut j: usize = i + 1;
        proof {
            assert(hv.subrange(i + 1, i + 1) =~= Seq::<(usize, Seq<u8>)>::empty());
        }
        while j < hashes.len()
            invariant
                i < hashes@.len(),
                i + 1 <= j <= hashes@.len(),
                hv == hashes_view(hashes@),
                forall|k: int| 0 <= k < hashes@.len() ==> (#[trigger] hashes@[k]).1@.len() <= 0x1fff_ffff,
                matches_view(out@) == matches_view(before) + matches_with(hv[i as int], hv.subrange(i + 1, j as int), threshold),
            decreases hashes@.len() - j,
        {
            let d = hash_distance(hashes[i].1.as_slice(), hashes[j].1.as_slice());
            proof {
                assert(hv.subrange(i + 1, j + 1).drop_last() =~= hv.subrange(i + 1, j as int));
                assert(hv.subrange(i + 1, j + 1).last() == hv[j as int]);
            }
            let ghost mid = out@;
            if d <= threshold {
                out.push(PerceptualMatch { idx_a: hashes[i].0, idx_b: hashes[j].0, distance: d });
                proof {
                    assert(matches_view(out@) =~= matches_view(mid).push((hashes@[i as int].0, hashes@[j as int].0, d as nat)));
                }
            }
            j = j + 1;
        }
        proof {
            assert(matches_view(out@) =~= matches_view(before) + matches_with(hv[i as int], hv.subrange(i + 1, hv.len() as int), threshold));
        }
        i = i + 1;
    }
    out
}

} // verus!
