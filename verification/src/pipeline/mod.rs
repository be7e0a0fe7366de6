//! Object pipeline configuration, MIME detection and change statistics.

pub mod batch_hash;
pub mod changes;
pub mod fid_map;
pub mod plan;
pub mod rows;

use vstd::prelude::*;
use vstd::string::StringSliceAdditionalSpecFns;
use std::time::Duration;
use crate::duration::{from_millis, millis};
use crate::hashing::{blake3_digest, blake3_hash};
use crate::path::{extension, path_extension};
use crate::text::{chars_of, eq_chars, lowercase, string_of, to_lowercase};

verus! {

broadcast use vstd::string::group_string_axioms;

/// Sentinel value for "no parent" in an entry's parent FRN.
pub const NO_PARENT_FID: u64 = 0;

/// Configuration for the object pipeline.
#[derive(Debug, Clone)]
pub struct PipelineConfig {
    /// Volume identifier for this scan batch.
    pub volume_id: String,
    /// Number of entries to process in each DB batch.
    pub batch_size: usize,
    /// Whether to skip directory entries entirely.
    pub skip_directories: bool,
    /// Whether to detect MIME types from file extensions.
    pub mime_detection: bool,
}

impl PipelineConfig {
    /// Create a new config with sensible defaults: batches of 20,000,
    /// directories kept, MIME detection on.
    pub fn new(volume_id: String) -> (r: Self)
        ensures
            r.volume_id == volume_id,
            r.batch_size == 20_000,
            !r.skip_directories,
            r.mime_detection,
    {
        PipelineConfig { volume_id, batch_size: 20_000, skip_directories: false, mime_detection: true }
    }
}

impl Default for PipelineConfig {
    fn default() -> (r: Self)
        ensures
            r.volume_id@ == Seq::<char>::empty(),
            r.batch_size == 20_000,
            !r.skip_directories,
            r.mime_detection,
    {
        PipelineConfig::new(String::new())
    }
}

/// Configuration for the background hasher.
#[derive(Debug)]
pub struct BackgroundHasherConfig {
    /// How many deferred objects to fetch per batch.
    pub batch_size: i64,
    /// Delay between batches to avoid starving other I/O.
    pub batch_delay: Duration,
    /// Volume ID for inode cache key construction.
    pub volume_id: String,
}

impl BackgroundHasherConfig {
    /// Batches of 500, 100ms apart.
    pub fn new(volume_id: String) -> (r: Self)
        ensures
            r.batch_size == 500,
            r.batch_delay == millis(100),
            r.volume_id == volume_id,
    {
        BackgroundHasherConfig { batch_size: 500, batch_delay: from_millis(100), volume_id }
    }
}

/// Result of a background hashing run.
#[derive(Debug)]
pub struct BackgroundHashResult {
    /// Total objects upgraded from deferred → content.
    pub upgraded: u64,
    /// Objects that failed to hash (file missing, permissions, etc.).
    pub errors: u64,
    /// Objects where old_id == new_id.
    pub unchanged: u64,
}

/// Stats from processing a batch of changes.
#[derive(Debug)]
pub struct ChangeStats {
    pub created: usize,
    pub deleted: usize,
    pub moved: usize,
    pub modified: usize,
    pub errors: usize,
    pub rescan_needed: bool,
}

impl Default for ChangeStats {
    fn default() -> (r: Self)
        ensures
            r.created == 0 && r.deleted == 0 && r.moved == 0 && r.modified == 0 && r.errors == 0,
            !r.rescan_needed,
    {
        ChangeStats { created: 0, deleted: 0, moved: 0, modified: 0, errors: 0, rescan_needed: false }
    }
}

/// Appends `bytes` to `out`.
fn push_bytes(out: &mut Vec<u8>, bytes: &[u8])
    ensures
        final(out)@ == old(out)@ + bytes@,
{
    let ghost start = out@;
    let mut i: usize = 0;
    while i < bytes.len()
        invariant
            0 <= i <= bytes@.len(),
            out@ == start + bytes@.take(i as int),
        decreases bytes@.len() - i,
    {
        out.push(bytes[i]);
        proof {
            assert(bytes@.take(i + 1) =~= bytes@.take(i as int).push(bytes@[i as int]));
        }
        i = i + 1;
    }
    proof {
        assert(bytes@.take(bytes@.len() as int) =~= bytes@);
    }
}

/// The location id of a path on a volume: the BLAKE3 digest of the
/// volume id's bytes, `:`, and the path's bytes.
pub open spec fn location_digest(volume: Seq<u8>, path: Seq<u8>) -> Seq<u8> {
    blake3_digest(volume + seq![0x3au8] + path)
}

/// The location id of an entry: the BLAKE3 digest of the volume id's
/// bytes, `:`, and the path's bytes as the OS encodes them. The same volume
/// and path always give the same id.
pub fn location_id_for_entry(volume_id: &str, path_bytes: &[u8]) -> (r: [u8; 32])
    ensures
        r@ == location_digest(volume_id.spec_bytes(), path_bytes@),
{
    let mut v: Vec<u8> = Vec::new();
    push_bytes(&mut v, volume_id.as_bytes());
    v.push(0x3au8);
    push_bytes(&mut v, path_bytes);
    assert(v@ =~= volume_id.spec_bytes() + seq![0x3au8] + path_bytes@);
    blake3_hash(v.as_slice())
}

/// Lowercase extension → MIME type.
pub open spec fn mime_table() -> Seq<(Seq<char>, Seq<char>)> {
    seq![
        ("pdf"@, "application/pdf"@),
        ("doc"@, "application/msword"@),
        ("docx"@, "application/vnd.openxmlformats-officedocument.wordprocessingml.document"@),
        ("xls"@, "application/vnd.ms-excel"@),
        ("xlsx"@, "application/vnd.openxmlformats-officedocument.spreadsheetml.sheet"@),
        ("ppt"@, "application/vnd.ms-powerpoint"@),
        ("pptx"@, "application/vnd.openxmlformats-officedocument.presentationml.presentation"@),
        ("odt"@, "application/vnd.oasis.opendocument.text"@),
        ("ods"@, "application/vnd.oasis.opendocument.spreadsheet"@),
        ("csv"@, "text/csv"@),
        ("txt"@, "text/plain"@),
        ("md"@, "text/markdown"@),
        ("markdown"@, "text/markdown"@),
        ("html"@, "text/html"@),
        ("htm"@, "text/html"@),
        ("css"@, "text/css"@),
        ("xml"@, "application/xml"@),
        ("json"@, "application/json"@),
        ("yaml"@, "application/yaml"@),
        ("yml"@, "application/yaml"@),
        ("toml"@, "application/toml"@),
        ("jpg"@, "image/jpeg"@),
        ("jpeg"@, "image/jpeg"@),
        ("png"@, "image/png"@),
        ("gif"@, "image/gif"@),
        ("webp"@, "image/webp"@),
        ("svg"@, "image/svg+xml"@),
        ("bmp"@, "image/bmp"@),
        ("ico"@, "image/x-icon"@),
        ("tiff"@, "image/tiff"@),
        ("tif"@, "image/tiff"@),
        ("avif"@, "image/avif"@),
        ("heic"@, "image/heic"@),
        ("heif"@, "image/heic"@),
        ("mp4"@, "video/mp4"@),
        ("mkv"@, "video/x-matroska"@),
        ("avi"@, "video/x-msvideo"@),
        ("mov"@, "video/quicktime"@),
        ("wmv"@, "video/x-ms-wmv"@),
        ("webm"@, "video/webm"@),
        ("flv"@, "video/x-flv"@),
        ("mp3"@, "audio/mpeg"@),
        ("wav"@, "audio/wav"@),
        ("ogg"@, "audio/ogg"@),
        ("flac"@, "audio/flac"@),
        ("aac"@, "audio/aac"@),
        ("m4a"@, "audio/mp4"@),
        ("wma"@, "audio/x-ms-wma"@),
        ("zip"@, "application/zip"@),
        ("tar"@, "application/x-tar"@),
        ("gz"@, "application/gzip"@),
        ("gzip"@, "application/gzip"@),
        ("bz2"@, "application/x-bzip2"@),
        ("xz"@, "application/x-xz"@),
        ("7z"@, "application/x-7z-compressed"@),
        ("rar"@, "application/vnd.rar"@),
        ("zst"@, "application/zstd"@),
        ("zstd"@, "application/zstd"@),
        ("rs"@, "text/x-rust"@),
        ("py"@, "text/x-python"@),
        ("js"@, "text/javascript"@),
        ("ts"@, "text/typescript"@),
        ("go"@, "text/x-go"@),
        ("java"@, "text/x-java"@),
        ("c"@, "text/x-c"@),
        ("cpp"@, "text/x-c++"@),
        ("cc"@, "text/x-c++"@),
        ("cxx"@, "text/x-c++"@),
        ("h"@, "text/x-c-header"@),
        ("hpp"@, "text/x-c-header"@),
        ("rb"@, "text/x-ruby"@),
        ("sh"@, "text/x-shellscript"@),
        ("bash"@, "text/x-shellscript"@),
        ("sql"@, "application/sql"@),
        ("exe"@, "application/x-msdownload"@),
        ("dll"@, "application/x-msdownload"@),
        ("so"@, "application/x-sharedlib"@),
        ("dmg"@, "application/x-apple-diskimage"@),
        ("msi"@, "application/x-msi"@),
        ("deb"@, "application/vnd.debian.binary-package"@),
        ("rpm"@, "application/x-rpm"@),
        ("appimage"@, "application/x-executable"@),
        ("ttf"@, "font/ttf"@),
        ("otf"@, "font/otf"@),
        ("woff"@, "font/woff"@),
        ("woff2"@, "font/woff2"@),
    ]
}

/// The MIME type of the first table entry with extension `e` among the first
/// `k`.
pub open spec fn mime_lookup(e: Seq<char>, k: int) -> Option<Seq<char>>
    decreases k,
{
    if k <= 0 {
        None
    } else {
        match mime_lookup(e, k - 1) {
            Some(m) => Some(m),
            None => if mime_table()[k - 1].0 == e {
                Some(mime_table()[k - 1].1)
            } else {
                None
            },
        }
    }
}

/// A type found among the first `k` entries stays the answer for more.
proof fn lemma_lookup_stable(e: Seq<char>, k: int, j: int)
    requires
        0 <= k <= j,
        mime_lookup(e, k) is Some,
    ensures
        mime_lookup(e, j) == mime_lookup(e, k),
    decreases j - k,
{
    if j > k {
        lemma_lookup_stable(e, k, j - 1);
    }
}

/// The MIME type of a path: from its extension, lowercased, when the table
/// knows it.
pub open spec fn mime_of(p: Seq<char>) -> Option<Seq<char>> {
    match extension(p) {
        Some(e) => mime_lookup(lowercase(e), mime_table().len() as int),
        None => None,
    }
}

/// The media-type families a MIME answer belongs to.
pub open spec fn known_family(m: Seq<char>) -> bool {
    ||| m.len() >= 12 && m.take(12) == "application/"@
    ||| m.len() >= 5 && m.take(5) == "text/"@
    ||| m.len() >= 6 && m.take(6) == "image/"@
    ||| m.len() >= 6 && m.take(6) == "video/"@
    ||| m.len() >= 6 && m.take(6) == "audio/"@
    ||| m.len() >= 5 && m.take(5) == "font/"@
}

/// Every type in the table belongs to a known family.
#[verifier::spinoff_prover]
#[verifier::rlimit(100)]
pub proof fn lemma_table_families()
    ensures
        forall|i: int| 0 <= i < mime_table().len() ==> known_family(#[trigger] mime_table()[i].1),
{
    let t = mime_table();
    assert(known_family(t[0].1)) by {
        reveal_strlit("application/pdf");
        reveal_strlit("application/");
        assert(t[0].1 == "application/pdf"@);
        assert(t[0].1.take(12) =~= "application/"@);
    }
    assert(known_family(t[1].1)) by {
        reveal_strlit("application/msword");
        reveal_strlit("application/");
        assert(t[1].1 == "application/msword"@);
        assert(t[1].1.take(12) =~= "application/"@);
    }
    assert(known_family(t[2].1)) by {
        reveal_strlit("application/vnd.openxmlformats-officedocument.wordprocessingml.document");
        reveal_strlit("application/");
        assert(t[2].1 == "application/vnd.openxmlformats-officedocument.wordprocessingml.document"@);
        assert(t[2].1.take(12) =~= "application/"@);
    }
    assert(known_family(t[3].1)) by {
        reveal_strlit("application/vnd.ms-excel");
        reveal_strlit("application/");
        assert(t[3].1 == "application/vnd.ms-excel"@);
        assert(t[3].1.take(12) =~= "application/"@);
    }
    assert(known_family(t[4].1)) by {
        reveal_strlit("application/vnd.openxmlformats-officedocument.spreadsheetml.sheet");
        reveal_strlit("application/");
        assert(t[4].1 == "application/vnd.openxmlformats-officedocument.spreadsheetml.sheet"@);
        assert(t[4].1.take(12) =~= "application/"@);
    }
    assert(known_family(t[5].1)) by {
        reveal_strlit("application/vnd.ms-powerpoint");
        reveal_strlit("application/");
        assert(t[5].1 == "application/vnd.ms-powerpoint"@);
        assert(t[5].1.take(12) =~= "application/"@);
    }
    assert(known_family(t[6].1)) by {
        reveal_strlit("application/vnd.openxmlformats-officedocument.presentationml.presentation");
        reveal_strlit("application/");
        assert(t[6].1 == "application/vnd.openxmlformats-officedocument.presentationml.presentation"@);
        assert(t[6].1.take(12) =~= "application/"@);
    }
    assert(known_family(t[7].1)) by {
        reveal_strlit("application/vnd.oasis.opendocument.text");
        reveal_strlit("application/");
        assert(t[7].1 == "application/vnd.oasis.opendocument.text"@);
        assert(t[7].1.take(12) =~= "application/"@);
    }
    assert(known_family(t[8].1)) by {
        reveal_strlit("application/vnd.oasis.opendocument.spreadsheet");
        reveal_strlit("application/");
        assert(t[8].1 == "application/vnd.oasis.opendocument.spreadsheet"@);
        assert(t[8].1.take(12) =~= "application/"@);
    }
    assert(known_family(t[9].1)) by {
        reveal_strlit("text/csv");
        reveal_strlit("text/");
        assert(t[9].1 == "text/csv"@);
        assert(t[9].1.take(5) =~= "text/"@);
    }
    assert(known_family(t[10].1)) by {
        reveal_strlit("text/plain");
        reveal_strlit("text/");
        assert(t[10].1 == "text/plain"@);
        assert(t[10].1.take(5) =~= "text/"@);
    }
    assert(known_family(t[11].1)) by {
        reveal_strlit("text/markdown");
        reveal_strlit("text/");
        assert(t[11].1 == "text/markdown"@);
        assert(t[11].1.take(5) =~= "text/"@);
    }
    assert(known_family(t[12].1)) by {
        reveal_strlit("text/markdown");
        reveal_strlit("text/");
        assert(t[12].1 == "text/markdown"@);
        assert(t[12].1.take(5) =~= "text/"@);
    }
    assert(known_family(t[13].1)) by {
        reveal_strlit("text/html");
        reveal_strlit("text/");
        assert(t[13].1 == "text/html"@);
        assert(t[13].1.take(5) =~= "text/"@);
    }
    assert(known_family(t[14].1)) by {
        reveal_strlit("text/html");
        reveal_strlit("text/");
        assert(t[14].1 == "text/html"@);
        assert(t[14].1.take(5) =~= "text/"@);
    }
    assert(known_family(t[15].1)) by {
        reveal_strlit("text/css");
        reveal_strlit("text/");
        assert(t[15].1 == "text/css"@);
        assert(t[15].1.take(5) =~= "text/"@);
    }
    assert(known_family(t[16].1)) by {
        reveal_strlit("application/xml");
        reveal_strlit("application/");
        assert(t[16].1 == "application/xml"@);
        assert(t[16].1.take(12) =~= "application/"@);
    }
    assert(known_family(t[17].1)) by {
        reveal_strlit("application/json");
        reveal_strlit("application/");
        assert(t[17].1 == "application/json"@);
        assert(t[17].1.take(12) =~= "application/"@);
    }
    assert(known_family(t[18].1)) by {
        reveal_strlit("application/yaml");
        reveal_strlit("application/");
        assert(t[18].1 == "application/yaml"@);
        assert(t[18].1.take(12) =~= "application/"@);
    }
    assert(known_family(t[19].1)) by {
        reveal_strlit("application/yaml");
        reveal_strlit("application/");
        assert(t[19].1 == "application/yaml"@);
        assert(t[19].1.take(12) =~= "application/"@);
    }
    assert(known_family(t[20].1)) by {
        reveal_strlit("application/toml");
        reveal_strlit("application/");
        assert(t[20].1 == "application/toml"@);
        assert(t[20].1.take(12) =~= "application/"@);
    }
    assert(known_family(t[21].1)) by {
        reveal_strlit("image/jpeg");
        reveal_strlit("image/");
        assert(t[21].1 == "image/jpeg"@);
        assert(t[21].1.take(6) =~= "image/"@);
    }
    assert(known_family(t[22].1)) by {
        reveal_strlit("image/jpeg");
        reveal_strlit("image/");
        assert(t[22].1 == "image/jpeg"@);
        assert(t[22].1.take(6) =~= "image/"@);
    }
    assert(known_family(t[23].1)) by {
        reveal_strlit("image/png");
        reveal_strlit("image/");
        assert(t[23].1 == "image/png"@);
        assert(t[23].1.take(6) =~= "image/"@);
    }
    assert(known_family(t[24].1)) by {
        reveal_strlit("image/gif");
        reveal_strlit("image/");
        assert(t[24].1 == "image/gif"@);
        assert(t[24].1.take(6) =~= "image/"@);
    }
    assert(known_family(t[25].1)) by {
        reveal_strlit("image/webp");
        reveal_strlit("image/");
        assert(t[25].1 == "image/webp"@);
        assert(t[25].1.take(6) =~= "image/"@);
    }
    assert(known_family(t[26].1)) by {
        reveal_strlit("image/svg+xml");
        reveal_strlit("image/");
        assert(t[26].1 == "image/svg+xml"@);
        assert(t[26].1.take(6) =~= "image/"@);
    }
    assert(known_family(t[27].1)) by {
        reveal_strlit("image/bmp");
        reveal_strlit("image/");
        assert(t[27].1 == "image/bmp"@);
        assert(t[27].1.take(6) =~= "image/"@);
    }
    assert(known_family(t[28].1)) by {
        reveal_strlit("image/x-icon");
        reveal_strlit("image/");
        assert(t[28].1 == "image/x-icon"@);
        assert(t[28].1.take(6) =~= "image/"@);
    }
    assert(known_family(t[29].1)) by {
        reveal_strlit("image/tiff");
        reveal_strlit("image/");
        assert(t[29].1 == "image/tiff"@);
        assert(t[29].1.take(6) =~= "image/"@);
    }
    assert(known_family(t[30].1)) by {
        reveal_strlit("image/tiff");
        reveal_strlit("image/");
        assert(t[30].1 == "image/tiff"@);
        assert(t[30].1.take(6) =~= "image/"@);
    }
    assert(known_family(t[31].1)) by {
        reveal_strlit("image/avif");
        reveal_strlit("image/");
        assert(t[31].1 == "image/avif"@);
        assert(t[31].1.take(6) =~= "image/"@);
    }
    assert(known_family(t[32].1)) by {
        reveal_strlit("image/heic");
        reveal_strlit("image/");
        assert(t[32].1 == "image/heic"@);
        assert(t[32].1.take(6) =~= "image/"@);
    }
    assert(known_family(t[33].1)) by {
        reveal_strlit("image/heic");
        reveal_strlit("image/");
        assert(t[33].1 == "image/heic"@);
        assert(t[33].1.take(6) =~= "image/"@);
    }
    assert(known_family(t[34].1)) by {
        reveal_strlit("video/mp4");
        reveal_strlit("video/");
        assert(t[34].1 == "video/mp4"@);
        assert(t[34].1.take(6) =~= "video/"@);
    }
    assert(known_family(t[35].1)) by {
        reveal_strlit("video/x-matroska");
        reveal_strlit("video/");
        assert(t[35].1 == "video/x-matroska"@);
        assert(t[35].1.take(6) =~= "video/"@);
    }
    assert(known_family(t[36].1)) by {
        reveal_strlit("video/x-msvideo");
        reveal_strlit("video/");
        assert(t[36].1 == "video/x-msvideo"@);
        assert(t[36].1.take(6) =~= "video/"@);
    }
    assert(known_family(t[37].1)) by {
        reveal_strlit("video/quicktime");
        reveal_strlit("video/");
        assert(t[37].1 == "video/quicktime"@);
        assert(t[37].1.take(6) =~= "video/"@);
    }
    assert(known_family(t[38].1)) by {
        reveal_strlit("video/x-ms-wmv");
        reveal_strlit("video/");
        assert(t[38].1 == "video/x-ms-wmv"@);
        assert(t[38].1.take(6) =~= "video/"@);
    }
    assert(known_family(t[39].1)) by {
        reveal_strlit("video/webm");
        reveal_strlit("video/");
        assert(t[39].1 == "video/webm"@);
        assert(t[39].1.take(6) =~= "video/"@);
    }
    assert(known_family(t[40].1)) by {
        reveal_strlit("video/x-flv");
        reveal_strlit("video/");
        assert(t[40].1 == "video/x-flv"@);
        assert(t[40].1.take(6) =~= "video/"@);
    }
    assert(known_family(t[41].1)) by {
        reveal_strlit("audio/mpeg");
        reveal_strlit("audio/");
        assert(t[41].1 == "audio/mpeg"@);
        assert(t[41].1.take(6) =~= "audio/"@);
    }
    assert(known_family(t[42].1)) by {
        reveal_strlit("audio/wav");
        reveal_strlit("audio/");
        assert(t[42].1 == "audio/wav"@);
        assert(t[42].1.take(6) =~= "audio/"@);
    }
    assert(known_family(t[43].1)) by {
        reveal_strlit("audio/ogg");
        reveal_strlit("audio/");
        assert(t[43].1 == "audio/ogg"@);
        assert(t[43].1.take(6) =~= "audio/"@);
    }
    assert(known_family(t[44].1)) by {
        reveal_strlit("audio/flac");
        reveal_strlit("audio/");
        assert(t[44].1 == "audio/flac"@);
        assert(t[44].1.take(6) =~= "audio/"@);
    }
    assert(known_family(t[45].1)) by {
        reveal_strlit("audio/aac");
        reveal_strlit("audio/");
        assert(t[45].1 == "audio/aac"@);
        assert(t[45].1.take(6) =~= "audio/"@);
    }
    assert(known_family(t[46].1)) by {
        reveal_strlit("audio/mp4");
        reveal_strlit("audio/");
        assert(t[46].1 == "audio/mp4"@);
        assert(t[46].1.take(6) =~= "audio/"@);
    }
    assert(known_family(t[47].1)) by {
        reveal_strlit("audio/x-ms-wma");
        reveal_strlit("audio/");
        assert(t[47].1 == "audio/x-ms-wma"@);
        assert(t[47].1.take(6) =~= "audio/"@);
    }
    assert(known_family(t[48].1)) by {
        reveal_strlit("application/zip");
        reveal_strlit("application/");
        assert(t[48].1 == "application/zip"@);
        assert(t[48].1.take(12) =~= "application/"@);
    }
    assert(known_family(t[49].1)) by {
        reveal_strlit("application/x-tar");
        reveal_strlit("application/");
        assert(t[49].1 == "application/x-tar"@);
        assert(t[49].1.take(12) =~= "application/"@);
    }
    assert(known_family(t[50].1)) by {
        reveal_strlit("application/gzip");
        reveal_strlit("application/");
        assert(t[50].1 == "application/gzip"@);
        assert(t[50].1.take(12) =~= "application/"@);
    }
    assert(known_family(t[51].1)) by {
        reveal_strlit("application/gzip");
        reveal_strlit("application/");
        assert(t[51].1 == "application/gzip"@);
        assert(t[51].1.take(12) =~= "application/"@);
    }
    assert(known_family(t[52].1)) by {
        reveal_strlit("application/x-bzip2");
        reveal_strlit("application/");
        assert(t[52].1 == "application/x-bzip2"@);
        assert(t[52].1.take(12) =~= "application/"@);
    }
    assert(known_family(t[53].1)) by {
        reveal_strlit("application/x-xz");
        reveal_strlit("application/");
        assert(t[53].1 == "application/x-xz"@);
        assert(t[53].1.take(12) =~= "application/"@);
    }
    assert(known_family(t[54].1)) by {
        reveal_strlit("application/x-7z-compressed");
        reveal_strlit("application/");
        assert(t[54].1 == "application/x-7z-compressed"@);
        assert(t[54].1.take(12) =~= "application/"@);
    }
    assert(known_family(t[55].1)) by {
        reveal_strlit("application/vnd.rar");
        reveal_strlit("application/");
        assert(t[55].1 == "application/vnd.rar"@);
        assert(t[55].1.take(12) =~= "application/"@);
    }
    assert(known_family(t[56].1)) by {
        reveal_strlit("application/zstd");
        reveal_strlit("application/");
        assert(t[56].1 == "application/zstd"@);
        assert(t[56].1.take(12) =~= "application/"@);
    }
    assert(known_family(t[57].1)) by {
        reveal_strlit("application/zstd");
        reveal_strlit("application/");
        assert(t[57].1 == "application/zstd"@);
        assert(t[57].1.take(12) =~= "application/"@);
    }
    assert(known_family(t[58].1)) by {
        reveal_strlit("text/x-rust");
        reveal_strlit("text/");
        assert(t[58].1 == "text/x-rust"@);
        assert(t[58].1.take(5) =~= "text/"@);
    }
    assert(known_family(t[59].1)) by {
        reveal_strlit("text/x-python");
        reveal_strlit("text/");
        assert(t[59].1 == "text/x-python"@);
        assert(t[59].1.take(5) =~= "text/"@);
    }
    assert(known_family(t[60].1)) by {
        reveal_strlit("text/javascript");
        reveal_strlit("text/");
        assert(t[60].1 == "text/javascript"@);
        assert(t[60].1.take(5) =~= "text/"@);
    }
    assert(known_family(t[61].1)) by {
        reveal_strlit("text/typescript");
        reveal_strlit("text/");
        assert(t[61].1 == "text/typescript"@);
        assert(t[61].1.take(5) =~= "text/"@);
    }
    assert(known_family(t[62].1)) by {
        reveal_strlit("text/x-go");
        reveal_strlit("text/");
        assert(t[62].1 == "text/x-go"@);
        assert(t[62].1.take(5) =~= "text/"@);
    }
    assert(known_family(t[63].1)) by {
        reveal_strlit("text/x-java");
        reveal_strlit("text/");
        assert(t[63].1 == "text/x-java"@);
        assert(t[63].1.take(5) =~= "text/"@);
    }
    assert(known_family(t[64].1)) by {
        reveal_strlit("text/x-c");
        reveal_strlit("text/");
        assert(t[64].1 == "text/x-c"@);
        assert(t[64].1.take(5) =~= "text/"@);
    }
    assert(known_family(t[65].1)) by {
        reveal_strlit("text/x-c++");
        reveal_strlit("text/");
        assert(t[65].1 == "text/x-c++"@);
        assert(t[65].1.take(5) =~= "text/"@);
    }
    assert(known_family(t[66].1)) by {
        reveal_strlit("text/x-c++");
        reveal_strlit("text/");
        assert(t[66].1 == "text/x-c++"@);
        assert(t[66].1.take(5) =~= "text/"@);
    }
    assert(known_family(t[67].1)) by {
        reveal_strlit("text/x-c++");
        reveal_strlit("text/");
        assert(t[67].1 == "text/x-c++"@);
        assert(t[67].1.take(5) =~= "text/"@);
    }
    assert(known_family(t[68].1)) by {
        reveal_strlit("text/x-c-header");
        reveal_strlit("text/");
        assert(t[68].1 == "text/x-c-header"@);
        assert(t[68].1.take(5) =~= "text/"@);
    }
    assert(known_family(t[69].1)) by {
        reveal_strlit("text/x-c-header");
        reveal_strlit("text/");
        assert(t[69].1 == "text/x-c-header"@);
        assert(t[69].1.take(5) =~= "text/"@);
    }
    assert(known_family(t[70].1)) by {
        reveal_strlit("text/x-ruby");
        reveal_strlit("text/");
        assert(t[70].1 == "text/x-ruby"@);
        assert(t[70].1.take(5) =~= "text/"@);
    }
    assert(known_family(t[71].1)) by {
        reveal_strlit("text/x-shellscript");
        reveal_strlit("text/");
        assert(t[71].1 == "text/x-shellscript"@);
        assert(t[71].1.take(5) =~= "text/"@);
    }
    assert(known_family(t[72].1)) by {
        reveal_strlit("text/x-shellscript");
        reveal_strlit("text/");
        assert(t[72].1 == "text/x-shellscript"@);
        assert(t[72].1.take(5) =~= "text/"@);
    }
    assert(known_family(t[73].1)) by {
        reveal_strlit("application/sql");
        reveal_strlit("application/");
        assert(t[73].1 == "application/sql"@);
        assert(t[73].1.take(12) =~= "application/"@);
    }
    assert(known_family(t[74].1)) by {
        reveal_strlit("application/x-msdownload");
        reveal_strlit("application/");
        assert(t[74].1 == "application/x-msdownload"@);
        assert(t[74].1.take(12) =~= "application/"@);
    }
    assert(known_family(t[75].1)) by {
        reveal_strlit("application/x-msdownload");
        reveal_strlit("application/");
        assert(t[75].1 == "application/x-msdownload"@);
        assert(t[75].1.take(12) =~= "application/"@);
    }
    assert(known_family(t[76].1)) by {
        reveal_strlit("application/x-sharedlib");
        reveal_strlit("application/");
        assert(t[76].1 == "application/x-sharedlib"@);
        assert(t[76].1.take(12) =~= "application/"@);
    }
    assert(known_family(t[77].1)) by {
        reveal_strlit("application/x-apple-diskimage");
        reveal_strlit("application/");
        assert(t[77].1 == "application/x-apple-diskimage"@);
        assert(t[77].1.take(12) =~= "application/"@);
    }
    assert(known_family(t[78].1)) by {
        reveal_strlit("application/x-msi");
        reveal_strlit("application/");
        assert(t[78].1 == "application/x-msi"@);
        assert(t[78].1.take(12) =~= "application/"@);
    }
    assert(known_family(t[79].1)) by {
        reveal_strlit("application/vnd.debian.binary-package");
        reveal_strlit("application/");
        assert(t[79].1 == "application/vnd.debian.binary-package"@);
        assert(t[79].1.take(12) =~= "application/"@);
    }
    assert(known_family(t[80].1)) by {
        reveal_strlit("application/x-rpm");
        reveal_strlit("application/");
        assert(t[80].1 == "application/x-rpm"@);
        assert(t[80].1.take(12) =~= "application/"@);
    }
    assert(known_family(t[81].1)) by {
        reveal_strlit("application/x-executable");
        reveal_strlit("application/");
        assert(t[81].1 == "application/x-executable"@);
        assert(t[81].1.take(12) =~= "application/"@);
    }
    assert(known_family(t[82].1)) by {
        reveal_strlit("font/ttf");
        reveal_strlit("font/");
        assert(t[82].1 == "font/ttf"@);
        assert(t[82].1.take(5) =~= "font/"@);
    }
    assert(known_family(t[83].1)) by {
        reveal_strlit("font/otf");
        reveal_strlit("font/");
        assert(t[83].1 == "font/otf"@);
        assert(t[83].1.take(5) =~= "font/"@);
    }
    assert(known_family(t[84].1)) by {
        reveal_strlit("font/woff");
        reveal_strlit("font/");
        assert(t[84].1 == "font/woff"@);
        assert(t[84].1.take(5) =~= "font/"@);
    }
    assert(known_family(t[85].1)) by {
        reveal_strlit("font/woff2");
        reveal_strlit("font/");
        assert(t[85].1 == "font/woff2"@);
        assert(t[85].1.take(5) =~= "font/"@);
    }
    assert forall|i: int| 0 <= i < t.len() implies known_family(#[trigger] t[i].1) by {
        if i == 0 {} else if i == 1 {} else if i == 2 {} else if i == 3 {} else if i == 4 {} else if i == 5 {} else if i == 6 {} else if i == 7 {} else if i == 8 {} else if i == 9 {} else if i == 10 {} else if i == 11 {} else if i == 12 {} else if i == 13 {} else if i == 14 {} else if i == 15 {} else if i == 16 {} else if i == 17 {} else if i == 18 {} else if i == 19 {} else if i == 20 {} else if i == 21 {} else if i == 22 {} else if i == 23 {} else if i == 24 {} else if i == 25 {} else if i == 26 {} else if i == 27 {} else if i == 28 {} else if i == 29 {} else if i == 30 {} else if i == 31 {} else if i == 32 {} else if i == 33 {} else if i == 34 {} else if i == 35 {} else if i == 36 {} else if i == 37 {} else if i == 38 {} else if i == 39 {} else if i == 40 {} else if i == 41 {} else if i == 42 {} else if i == 43 {} else if i == 44 {} else if i == 45 {} else if i == 46 {} else if i == 47 {} else if i == 48 {} else if i == 49 {} else if i == 50 {} else if i == 51 {} else if i == 52 {} else if i == 53 {} else if i == 54 {} else if i == 55 {} else if i == 56 {} else if i == 57 {} else if i == 58 {} else if i == 59 {} else if i == 60 {} else if i == 61 {} else if i == 62 {} else if i == 63 {} else if i == 64 {} else if i == 65 {} else if i == 66 {} else if i == 67 {} else if i == 68 {} else if i == 69 {} else if i == 70 {} else if i == 71 {} else if i == 72 {} else if i == 73 {} else if i == 74 {} else if i == 75 {} else if i == 76 {} else if i == 77 {} else if i == 78 {} else if i == 79 {} else if i == 80 {} else if i == 81 {} else if i == 82 {} else if i == 83 {} else if i == 84 {} else if i == 85 {}
    }
}

/// A type found among the first `k` table entries is of a known family.
proof fn lemma_lookup_family(e: Seq<char>, k: int)
    requires
        0 <= k <= mime_table().len(),
    ensures
        mime_lookup(e, k) matches Some(m) ==> known_family(m),
    decreases k,
{
    if k > 0 {
        lemma_lookup_family(e, k - 1);
        lemma_table_families();
        assert(known_family(mime_table()[k - 1].1));
    }
}

/// MIME detection depends on the lowercased extension alone: paths whose
/// extensions lowercase alike get the same answer, a path without an
/// extension gets none, and every answer starts with `application/`,
/// `text/`, `image/`, `video/`, `audio/` or `font/`.
pub proof fn lemma_mime_laws(p1: Seq<char>, p2: Seq<char>)
    ensures
        extension(p1) is None ==> mime_of(p1) is None,
        (match (extension(p1), extension(p2)) {
            (Some(a), Some(b)) => lowercase(a) == lowercase(b),
            (None, None) => true,
            _ => false,
        }) ==> mime_of(p1) == mime_of(p2),
        mime_of(p1) matches Some(m) ==> known_family(m),
{
    if let Some(e) = extension(p1) {
        lemma_lookup_family(lowercase(e), mime_table().len() as int);
    }
}

/// The MIME table.
fn mime_entries() -> (t: Vec<(&'static str, &'static str)>)
    ensures
        t@.len() == mime_table().len(),
        forall|i: int| 0 <= i < t@.len() ==> (#[trigger] t@[i]).0@ == mime_table()[i].0 && t@[i].1@ == mime_table()[i].1,
{
    let mut t: Vec<(&'static str, &'static str)> = Vec::new();
    t.push(("pdf", "application/pdf"));
    t.push(("doc", "application/msword"));
    t.push(("docx", "application/vnd.openxmlformats-officedocument.wordprocessingml.document"));
    t.push(("xls", "application/vnd.ms-excel"));
    t.push(("xlsx", "application/vnd.openxmlformats-officedocument.spreadsheetml.sheet"));
    t.push(("ppt", "application/vnd.ms-powerpoint"));
    t.push(("pptx", "application/vnd.openxmlformats-officedocument.presentationml.presentation"));
    t.push(("odt", "application/vnd.oasis.opendocument.text"));
    t.push(("ods", "application/vnd.oasis.opendocument.spreadsheet"));
    t.push(("csv", "text/csv"));
    t.push(("txt", "text/plain"));
    t.push(("md", "text/markdown"));
    t.push(("markdown", "text/markdown"));
    t.push(("html", "text/html"));
    t.push(("htm", "text/html"));
    t.push(("css", "text/css"));
    t.push(("xml", "application/xml"));
    t.push(("json", "application/json"));
    t.push(("yaml", "application/yaml"));
    t.push(("yml", "application/yaml"));
    t.push(("toml", "application/toml"));
    t.push(("jpg", "image/jpeg"));
    t.push(("jpeg", "image/jpeg"));
    t.push(("png", "image/png"));
    t.push(("gif", "image/gif"));
    t.push(("webp", "image/webp"));
    t.push(("svg", "image/svg+xml"));
    t.push(("bmp", "image/bmp"));
    t.push(("ico", "image/x-icon"));
    t.push(("tiff", "image/tiff"));
    t.push(("tif", "image/tiff"));
    t.push(("avif", "image/avif"));
    t.push(("heic", "image/heic"));
    t.push(("heif", "image/heic"));
    t.push(("mp4", "video/mp4"));
    t.push(("mkv", "video/x-matroska"));
    t.push(("avi", "video/x-msvideo"));
    t.push(("mov", "video/quicktime"));
    t.push(("wmv", "video/x-ms-wmv"));
    t.push(("webm", "video/webm"));
    t.push(("flv", "video/x-flv"));
    t.push(("mp3", "audio/mpeg"));
    t.push(("wav", "audio/wav"));
    t.push(("ogg", "audio/ogg"));
    t.push(("flac", "audio/flac"));
    t.push(("aac", "audio/aac"));
    t.push(("m4a", "audio/mp4"));
    t.push(("wma", "audio/x-ms-wma"));
    t.push(("zip", "application/zip"));
    t.push(("tar", "application/x-tar"));
    t.push(("gz", "application/gzip"));
    t.push(("gzip", "application/gzip"));
    t.push(("bz2", "application/x-bzip2"));
    t.push(("xz", "application/x-xz"));
    t.push(("7z", "application/x-7z-compressed"));
    t.push(("rar", "application/vnd.rar"));
    t.push(("zst", "application/zstd"));
    t.push(("zstd", "application/zstd"));
    t.push(("rs", "text/x-rust"));
    t.push(("py", "text/x-python"));
    t.push(("js", "text/javascript"));
    t.push(("ts", "text/typescript"));
    t.push(("go", "text/x-go"));
    t.push(("java", "text/x-java"));
    t.push(("c", "text/x-c"));
    t.push(("cpp", "text/x-c++"));
    t.push(("cc", "text/x-c++"));
    t.push(("cxx", "text/x-c++"));
    t.push(("h", "text/x-c-header"));
    t.push(("hpp", "text/x-c-header"));
    t.push(("rb", "text/x-ruby"));
    t.push(("sh", "text/x-shellscript"));
    t.push(("bash", "text/x-shellscript"));
    t.push(("sql", "application/sql"));
    t.push(("exe", "application/x-msdownload"));
    t.push(("dll", "application/x-msdownload"));
    t.push(("so", "application/x-sharedlib"));
    t.push(("dmg", "application/x-apple-diskimage"));
    t.push(("msi", "application/x-msi"));
    t.push(("deb", "application/vnd.debian.binary-package"));
    t.push(("rpm", "application/x-rpm"));
    t.push(("appimage", "application/x-executable"));
    t.push(("ttf", "font/ttf"));
    t.push(("otf", "font/otf"));
    t.push(("woff", "font/woff"));
    t.push(("woff2", "font/woff2"));
    t
}

/// Detect the MIME type of a path from its extension; `None` for unknown
/// extensions and paths without one.
pub fn mime_from_extension(path: &str) -> (r: Option<String>)
    ensures
        match mime_of(path@) {
            Some(m) => r matches Some(s) && s@ == m,
            None => r is None,
        },
{
    let p = chars_of(path);
    let ext = match path_extension(p.as_slice()) {
        Some(e) => e,
        None => return None,
    };
    let es = string_of(ext.as_slice());
    let lower = to_lowercase(es.as_str());
    let l = chars_of(lower.as_str());
    let table = mime_entries();
    let mut k: usize = 0;
    while k < table.len()
        invariant
            0 <= k <= table@.len(),
            table@.len() == mime_table().len(),
            forall|i: int| 0 <= i < table@.len() ==> (#[trigger] table@[i]).0@ == mime_table()[i].0 && table@[i].1@ == mime_table()[i].1,
            l@ == lowercase(ext@),
            extension(path@) == Some(ext@),
            mime_lookup(l@, k as int) is None,
        decreases table@.len() - k,
    {
        let key = chars_of(table[k].0);
        if eq_chars(l.as_slice(), key.as_slice()) {
            proof {
                assert(l@ == mime_table()[k as int].0);
                assert(mime_lookup(l@, k + 1) == Some(mime_table()[k as int].1));
                lemma_lookup_stable(l@, k + 1, table@.len() as int);
                assert(extension(path@) == Some(ext@));
                assert(mime_of(path@) == Some(mime_table()[k as int].1));
            }
            return Some(table[k].1.to_string());
        }
        k = k + 1;
    }
    None
}

} // verus!
