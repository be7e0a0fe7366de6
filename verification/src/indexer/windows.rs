//! Windows volume identification, USN journal change decoding and listener
//! configuration.
//!
//! The Win32 and journal calls themselves stay with the caller; this module
//! decides what their answers mean.

use vstd::prelude::*;
use crate::duration::{from_millis, millis};
use crate::indexer::error::FsIndexerError;
use crate::indexer::types::{FilesystemKind, UsnCursor};
use crate::text::{
    chars_of, contains_chars, contains_seq, decimal, push_decimal, push_str, string_of, split_lines,
    text_lines, trim, trimmed,
};
use std::time::Duration;

verus! {

broadcast use vstd::string::group_string_axioms;

/// Minimum FRN for user files. FRNs 0–23 are NTFS metadata files ($MFT,
/// $MFTMirr, $LogFile, $Volume, $AttrDef, ., $Bitmap, $Boot, $BadClus,
/// $Secure, $UpCase, $Extend, and reserved entries).
pub const MIN_USER_FRN: u64 = 24;
/// Win32 file attribute flag for directories.
pub const FILE_ATTRIBUTE_DIRECTORY: u32 = 0x10;
/// Win32 file attribute flag for reparse points (junctions, symlinks).
pub const FILE_ATTRIBUTE_REPARSE_POINT: u32 = 0x400;
/// Minimum synthetic FID for directory-walk entries (avoids collision with
/// NTFS FRNs).
pub const MIN_SYNTHETIC_FID: u64 = 1_000_000_000;
/// Batch size for handle operations to avoid handle exhaustion.
pub const ENRICH_BATCH_SIZE: usize = 5000;

/// USN reason flag: file created.
pub const USN_REASON_FILE_CREATE: u32 = 0x00000100;
/// USN reason flag: file deleted.
pub const USN_REASON_FILE_DELETE: u32 = 0x00000200;
/// USN reason flag: renamed (new name).
pub const USN_REASON_RENAME_NEW_NAME: u32 = 0x00002000;
/// USN reason flag: data extended.
pub const USN_REASON_DATA_EXTEND: u32 = 0x00000002;
/// USN reason flag: data truncated.
pub const USN_REASON_DATA_TRUNCATION: u32 = 0x00000004;
/// USN reason flag: data overwritten.
pub const USN_REASON_DATA_OVERWRITE: u32 = 0x00000001;

/// Classification of a Windows drive by hardware/connection type.
#[derive(Debug, Clone, Copy, PartialEq, Eq, Structural)]
pub enum DriveType {
    /// Internal or permanently attached disk (HDD, SSD, NVMe).
    Fixed,
    /// Hot-pluggable media (USB stick, SD card, external HDD).
    Removable,
    /// Mapped network share (SMB, NFS, etc.).
    Network,
    /// Optical disc drive (CD, DVD, Blu-ray).
    CdRom,
    /// RAM disk (software-defined volatile storage).
    RamDisk,
    /// WSL (Windows Subsystem for Linux) distro filesystem via 9P.
    Wsl,
    /// Unrecognized or inaccessible drive type.
    Unknown,
}

/// The drive type of a `GetDriveTypeW` code.
pub open spec fn drive_type_of(code: u32) -> DriveType {
    if code == 2 {
        DriveType::Removable
    } else if code == 3 {
        DriveType::Fixed
    } else if code == 4 {
        DriveType::Network
    } else if code == 5 {
        DriveType::CdRom
    } else if code == 6 {
        DriveType::RamDisk
    } else {
        DriveType::Unknown
    }
}

/// Classify a `GetDriveTypeW` code (DRIVE_REMOVABLE = 2, DRIVE_FIXED = 3,
/// DRIVE_REMOTE = 4, DRIVE_CDROM = 5, DRIVE_RAMDISK = 6; anything else is
/// unknown).
pub fn drive_type_from_code(code: u32) -> (r: DriveType)
    ensures
        r == drive_type_of(code),
{
    match code {
        2 => DriveType::Removable,
        3 => DriveType::Fixed,
        4 => DriveType::Network,
        5 => DriveType::CdRom,
        6 => DriveType::RamDisk,
        _ => DriveType::Unknown,
    }
}

/// Information about a discovered volume.
#[derive(Debug, Clone)]
pub struct DriveInfo {
    /// Volume root path: `"C:\\"` or `"\\\\wsl.localhost\\Ubuntu\\"`.
    pub path: String,
    /// Short identifier for the `volume_id` column: `"C"`, `"D"`, `"wsl:Ubuntu"`.
    pub volume_id: String,
    /// Hardware classification of the drive.
    pub drive_type: DriveType,
    /// Detected filesystem (None if inaccessible, e.g. empty CD tray).
    pub fs_kind: Option<FilesystemKind>,
}

/// The drive letters present in a `GetLogicalDrives` bit mask (bit 0 = A).
pub open spec fn mask_letters(mask: u32, k: int) -> Seq<char>
    decreases k,
{
    if k <= 0 {
        seq![]
    } else {
        mask_letters(mask, k - 1) + if (mask >> ((k - 1) as u32)) & 1 == 1 {
            seq![(('A' as u32) + (k - 1)) as char]
        } else {
            seq![]
        }
    }
}

/// The drive letters A–Z whose bit is set in `mask`, in order.
pub fn drive_letters(mask: u32) -> (r: Vec<char>)
    ensures
        r@ == mask_letters(mask, 26),
{
    let mut out: Vec<char> = Vec::new();
    let mut bit: u32 = 0;
    while bit < 26
        invariant
            0 <= bit <= 26,
            out@ == mask_letters(mask, bit as int),
        decreases 26 - bit,
    {
        if (mask >> bit) & 1 == 1 {
            let letter = ((('A' as u32) + bit) as u8) as char;
            proof {
                assert(((('A' as u32) + bit) as u8) as char == (('A' as u32) + bit) as char);
            }
            out.push(letter);
        }
        bit = bit + 1;
    }
    out
}

/// The description of drive `letter`: root `"X:\\"`, identifier `"X"`.
pub fn drive_info(letter: char, drive_type: DriveType, fs_kind: Option<FilesystemKind>) -> (r: DriveInfo)
    ensures
        r.path@ == seq![letter, ':', '\\'],
        r.volume_id@ == seq![letter],
        r.drive_type == drive_type,
        r.fs_kind == fs_kind,
{
    let mut p: Vec<char> = Vec::new();
    p.push(letter);
    p.push(':');
    p.push('\\');
    let mut id: Vec<char> = Vec::new();
    id.push(letter);
    DriveInfo {
        path: string_of(p.as_slice()),
        volume_id: string_of(id.as_slice()),
        drive_type,
        fs_kind,
    }
}

/// The description of an accessible WSL distro: root
/// `"\\\\wsl.localhost\\{name}\\"`, identifier `"wsl:{name}"`, 9P.
pub fn wsl_drive_info(name: &str) -> (r: DriveInfo)
    ensures
        r.path@ == "\\\\wsl.localhost\\"@ + name@ + "\\"@,
        r.volume_id@ == "wsl:"@ + name@,
        r.drive_type == DriveType::Wsl,
        r.fs_kind == Some(FilesystemKind::NineP),
{
    let mut p: Vec<char> = Vec::new();
    push_str(&mut p, "\\\\wsl.localhost\\");
    push_str(&mut p, name);
    push_str(&mut p, "\\");
    let mut id: Vec<char> = Vec::new();
    push_str(&mut id, "wsl:");
    push_str(&mut id, name);
    DriveInfo {
        path: string_of(p.as_slice()),
        volume_id: string_of(id.as_slice()),
        drive_type: DriveType::Wsl,
        fs_kind: Some(FilesystemKind::NineP),
    }
}

/// All discovered volumes: the drive-letter volumes, then the WSL distros.
pub fn enumerate_volumes(drives: Vec<DriveInfo>, wsl: Vec<DriveInfo>) -> (r: Vec<DriveInfo>)
    ensures
        r@ == drives@ + wsl@,
{
    let mut volumes = drives;
    let mut rest = wsl;
    volumes.append(&mut rest);
    volumes
}

/// The volume list of a machine: one drive per letter whose bit is set in
/// the `GetLogicalDrives` mask (A first), with the `GetDriveTypeW` code and
/// the detected filesystem found for it (`codes[k]`, `kinds[k]` for the
/// `k`-th letter present), then one volume per accessible WSL distro, in
/// order.
pub fn volumes_from(mask: u32, codes: &[u32], kinds: &[Option<FilesystemKind>], distros: &[String]) -> (r: Vec<DriveInfo>)
    requires
        codes@.len() == mask_letters(mask, 26).len(),
        kinds@.len() == mask_letters(mask, 26).len(),
    ensures
        r@.len() == mask_letters(mask, 26).len() + distros@.len(),
        forall|k: int|
            0 <= k < mask_letters(mask, 26).len() ==> {
                let l = mask_letters(mask, 26)[k];
                &&& (#[trigger] r@[k]).path@ == seq![l, ':', '\\']
                &&& r@[k].volume_id@ == seq![l]
                &&& r@[k].drive_type == drive_type_of(codes@[k])
                &&& r@[k].fs_kind == kinds@[k]
            },
        forall|j: int|
            0 <= j < distros@.len() ==> {
                let d = #[trigger] r@[mask_letters(mask, 26).len() + j];
                &&& d.path@ == "\\\\wsl.localhost\\"@ + distros@[j]@ + "\\"@
                &&& d.volume_id@ == "wsl:"@ + distros@[j]@
                &&& d.drive_type == DriveType::Wsl
                &&& d.fs_kind == Some(FilesystemKind::NineP)
            },
{
    let letters = drive_letters(mask);
    let mut out: Vec<DriveInfo> = Vec::new();
    let mut k: usize = 0;
    while k < letters.len()
        invariant
            0 <= k <= letters@.len(),
            letters@ == mask_letters(mask, 26),
            codes@.len() == letters@.len(),
            kinds@.len() == letters@.len(),
            out@.len() == k,
            forall|i: int|
                0 <= i < k ==> {
                    let l = letters@[i];
                    &&& (#[trigger] out@[i]).path@ == seq![l, ':', '\\']
                    &&& out@[i].volume_id@ == seq![l]
                    &&& out@[i].drive_type == drive_type_of(codes@[i])
                    &&& out@[i].fs_kind == kinds@[i]
                },
        decreases letters@.len() - k,
    {
        let t = drive_type_from_code(codes[k]);
        let d = drive_info(letters[k], t, kinds[k]);
        out.push(d);
        k = k + 1;
    }
    let n = out.len();
    let mut j: usize = 0;
    while j < distros.len()
        invariant
            0 <= j <= distros@.len(),
            n == mask_letters(mask, 26).len(),
            out@.len() == n + j,
            forall|i: int|
                0 <= i < n ==> {
                    let l = mask_letters(mask, 26)[i];
                    &&& (#[trigger] out@[i]).path@ == seq![l, ':', '\\']
                    &&& out@[i].volume_id@ == seq![l]
                    &&& out@[i].drive_type == drive_type_of(codes@[i])
                    &&& out@[i].fs_kind == kinds@[i]
                },
            forall|i: int|
                0 <= i < j ==> {
                    let d = #[trigger] out@[n + i];
                    &&& d.path@ == "\\\\wsl.localhost\\"@ + distros@[i]@ + "\\"@
                    &&& d.volume_id@ == "wsl:"@ + distros@[i]@
                    &&& d.drive_type == DriveType::Wsl
                    &&& d.fs_kind == Some(FilesystemKind::NineP)
                },
        decreases distros@.len() - j,
    {
        let d = wsl_drive_info(distros[j].as_str());
        out.push(d);
        j = j + 1;
    }
    out
}

// ───────────────────────────── WSL distro names ─────────────────────────────

/// `s` without leading and trailing copies of `c` (`str::trim_matches`).
pub open spec fn trim_char(s: Seq<char>, c: char) -> Seq<char>
    decreases s.len(),
{
    if s.len() > 0 && s[0] == c {
        trim_char(s.drop_first(), c)
    } else if s.len() > 0 && s.last() == c {
        trim_char(s.drop_last(), c)
    } else {
        s
    }
}

/// A line of `wsl -l -q` output reduced to the distro name.
pub open spec fn clean_wsl_line(l: Seq<char>) -> Seq<char> {
    trim(trim_char(trim_char(trim(l), '\0'), '\u{FEFF}'))
}

/// The cleaned, non-empty lines among `ls`.
pub open spec fn wsl_names_of(ls: Seq<Seq<char>>) -> Seq<Seq<char>>
    decreases ls.len(),
{
    if ls.len() == 0 {
        seq![]
    } else {
        let c = clean_wsl_line(ls.last());
        wsl_names_of(ls.drop_last()) + if c.len() > 0 {
            seq![c]
        } else {
            seq![]
        }
    }
}

/// `v` without leading and trailing copies of `c`.
pub fn trim_matching(v: &[char], c: char) -> (r: Vec<char>)
    ensures
        r@ == trim_char(v@, c),
{
    let mut lo: usize = 0;
    let mut hi: usize = v.len();
    proof {
        assert(v@.subrange(0, v@.len() as int) =~= v@);
    }
    while lo < hi && v[lo] == c
        invariant
            0 <= lo <= hi <= v@.len(),
            hi == v@.len(),
            trim_char(v@.subrange(lo as int, hi as int), c) == trim_char(v@, c),
        decreases hi - lo,
    {
        proof {
            assert(v@.subrange(lo as int, hi as int).drop_first() =~= v@.subrange(lo + 1, hi as int));
        }
        lo = lo + 1;
    }
    while lo < hi && v[hi - 1] == c
        invariant
            0 <= lo <= hi <= v@.len(),
            lo < hi ==> v@[lo as int] != c,
            trim_char(v@.subrange(lo as int, hi as int), c) == trim_char(v@, c),
        decreases hi - lo,
    {
        proof {
            let sub = v@.subrange(lo as int, hi as int);
            assert(sub[0] == v@[lo as int]);
            assert(sub.drop_last() =~= v@.subrange(lo as int, hi - 1));
        }
        hi = hi - 1;
    }
    proof {
        let sub = v@.subrange(lo as int, hi as int);
        if lo < hi {
            assert(sub[0] == v@[lo as int]);
            assert(sub.last() == v@[hi - 1]);
        }
    }
    crate::text::slice_range(v, lo, hi)
}

/// Extract the distro names from the decoded text of `wsl -l -q`: each line
/// trimmed of whitespace, NUL characters and byte-order marks; empty lines
/// dropped.
pub fn wsl_names_from_text(text: &str) -> (r: Vec<String>)
    ensures
        r.len() == wsl_names_of(text_lines(text@)).len(),
        forall|i: int| 0 <= i < r.len() ==> (#[trigger] r@[i])@ == wsl_names_of(text_lines(text@))[i],
{
    let c = chars_of(text);
    let lines = split_lines(c.as_slice());
    let ghost ls = text_lines(text@);
    let mut out: Vec<String> = Vec::new();
    let mut i: usize = 0;
    while i < lines.len()
        invariant
            0 <= i <= lines@.len(),
            ls == text_lines(text@),
            lines@.len() == ls.len(),
            forall|k: int| 0 <= k < lines@.len() ==> #[trigger] lines@[k]@ == ls[k],
            out.len() == wsl_names_of(ls.take(i as int)).len(),
            forall|k: int| 0 <= k < out.len() ==> (#[trigger] out@[k])@ == wsl_names_of(ls.take(i as int))[k],
        decreases lines@.len() - i,
    {
        proof {
            assert(ls.take(i + 1).drop_last() =~= ls.take(i as int));
            assert(ls.take(i + 1).last() == ls[i as int]);
        }
        let a = trimmed(lines[i].as_slice());
        let b = trim_matching(a.as_slice(), '\0');
        let d = trim_matching(b.as_slice(), '\u{FEFF}');
        let e = trimmed(d.as_slice());
        if e.len() > 0 {
            out.push(string_of(e.as_slice()));
        }
        i = i + 1;
    }
    proof {
        assert(ls.take(ls.len() as int) =~= ls);
    }
    out
}

/// The UTF-16 code units of little-endian byte pairs.
pub open spec fn le_units(raw: Seq<u8>) -> Seq<u16> {
    Seq::new(raw.len() / 2, |i: int| (raw[2 * i] as u16 | ((raw[2 * i + 1] as u16) << 8u16)) as u16)
}

/// A leading (high) surrogate code unit.
pub open spec fn is_high_surrogate(u: u16) -> bool {
    0xD800 <= u <= 0xDBFF
}

/// A trailing (low) surrogate code unit.
pub open spec fn is_low_surrogate(u: u16) -> bool {
    0xDC00 <= u <= 0xDFFF
}

/// The character a surrogate pair encodes.
pub open spec fn pair_scalar(hi: u16, lo: u16) -> int {
    0x10000 + (hi - 0xD800) * 0x400 + (lo - 0xDC00)
}

/// UTF-16 decoding as `String::from_utf16_lossy` does it: a high surrogate
/// followed by a low one is one character, any other surrogate becomes
/// U+FFFD, every other unit is the character of that value.
pub open spec fn utf16_lossy(units: Seq<u16>) -> Seq<char>
    decreases units.len(),
{
    if units.len() == 0 {
        seq![]
    } else if units.len() >= 2 && is_high_surrogate(units[0]) && is_low_surrogate(units[1]) {
        seq![pair_scalar(units[0], units[1]) as char] + utf16_lossy(units.skip(2))
    } else if is_high_surrogate(units[0]) || is_low_surrogate(units[0]) {
        seq!['\u{FFFD}'] + utf16_lossy(units.skip(1))
    } else {
        seq![units[0] as char] + utf16_lossy(units.skip(1))
    }
}

/// Whether `v` is a Unicode scalar value (a valid `char`).
pub open spec fn is_scalar(v: u32) -> bool {
    v <= 0xD7FF || (0xE000 <= v && v <= 0x10FFFF)
}

/// `char::from_u32`: the character of a scalar value, `None` for any other
/// number.
pub assume_specification[ char::from_u32 ](i: u32) -> (r: Option<char>)
    ensures
        is_scalar(i) ==> r == Some(i as char),
        !is_scalar(i) ==> r is None,
;

/// The character of a scalar value.
fn scalar_char(v: u32) -> (c: char)
    requires
        is_scalar(v),
    ensures
        c == v as char,
{
    match char::from_u32(v) {
        Some(c) => c,
        None => '\u{FFFD}',
    }
}

/// Decode UTF-16, replacing unpaired surrogates with U+FFFD
/// (`String::from_utf16_lossy`).
fn decode_utf16_lossy(units: &[u16]) -> (r: String)
    ensures
        r@ == utf16_lossy(units@),
{
    let mut out: Vec<char> = Vec::new();
    let mut i: usize = 0;
    assert(units@.skip(0) =~= units@);
    assert(Seq::<char>::empty() + utf16_lossy(units@) =~= utf16_lossy(units@));
    while i < units.len()
        invariant
            0 <= i <= units@.len(),
            utf16_lossy(units@) == out@ + utf16_lossy(units@.skip(i as int)),
        decreases units@.len() - i,
    {
        let rest = Ghost(units@.skip(i as int));
        let u = units[i];
        if i + 1 < units.len() && 0xD800 <= u && u <= 0xDBFF && 0xDC00 <= units[i + 1] && units[i + 1] <= 0xDFFF {
            let lo = units[i + 1];
            let v: u32 = 0x10000 + ((u - 0xD800) as u32) * 0x400 + ((lo - 0xDC00) as u32);
            assert(rest@[0] == u && rest@[1] == lo);
            assert(rest@.skip(2) =~= units@.skip(i + 2));
            out.push(scalar_char(v));
            i = i + 2;
        } else if 0xD800 <= u && u <= 0xDFFF {
            assert(rest@[0] == u);
            assert(rest@.skip(1) =~= units@.skip(i + 1));
            out.push('\u{FFFD}');
            i = i + 1;
        } else {
            assert(rest@[0] == u);
            assert(rest@.skip(1) =~= units@.skip(i + 1));
            out.push(scalar_char(u as u32));
            i = i + 1;
        }
    }
    assert(units@.skip(i as int) =~= Seq::<u16>::empty());
    assert(out@ + Seq::<char>::empty() =~= out@);
    string_of(out.as_slice())
}

/// `String::from_utf8_lossy`: UTF-8 decoding, invalid sequences becoming
/// U+FFFD.
pub uninterp spec fn utf8_lossy(bytes: Seq<u8>) -> Seq<char>;

/// Calls `String::from_utf8_lossy` and takes the text as an owned `String`;
/// the result is the named `utf8_lossy` of the bytes.
#[verifier::external_body]
fn decode_utf8_lossy(bytes: &[u8]) -> (r: String)
    ensures
        r@ == utf8_lossy(bytes@),
{
    String::from_utf8_lossy(bytes).into_owned()
}

/// The text of `wsl -l -q` output: UTF-16LE when it has an even number of
/// bytes (at least two), UTF-8 otherwise.
pub open spec fn wsl_text(raw: Seq<u8>) -> Seq<char> {
    if raw.len() >= 2 && raw.len() % 2 == 0 {
        utf16_lossy(le_units(raw))
    } else {
        utf8_lossy(raw)
    }
}

/// Parse the raw stdout from `wsl -l -q` into distro names.
pub fn parse_wsl_output(raw: &[u8]) -> (r: Vec<String>)
    ensures
        r.len() == wsl_names_of(text_lines(wsl_text(raw@))).len(),
        forall|i: int| 0 <= i < r.len() ==> (#[trigger] r@[i])@ == wsl_names_of(text_lines(wsl_text(raw@)))[i],
{
    let text = if raw.len() >= 2 && raw.len() % 2 == 0 {
        let mut units: Vec<u16> = Vec::new();
        let mut i: usize = 0;
        while i < raw.len() / 2
            invariant
                raw@.len() >= 2,
                0 <= i <= raw@.len() / 2,
                units@ == le_units(raw@).take(i as int),
            decreases raw@.len() / 2 - i,
        {
            let u: u16 = (raw[2 * i] as u16) | ((raw[2 * i + 1] as u16) << 8u16);
            units.push(u);
            proof {
                assert(le_units(raw@).take(i + 1) =~= le_units(raw@).take(i as int).push(u));
            }
            i = i + 1;
        }
        proof {
            assert(le_units(raw@).take((raw@.len() / 2) as int) =~= le_units(raw@));
        }
        decode_utf16_lossy(units.as_slice())
    } else {
        decode_utf8_lossy(raw)
    };
    wsl_names_from_text(text.as_str())
}

// ───────────────────────────── volume keys ─────────────────────────────

/// Whether `c` is an ASCII letter.
pub open spec fn is_ascii_alpha(c: char) -> bool {
    ('a' <= c && c <= 'z') || ('A' <= c && c <= 'Z')
}

/// Whether a path text starts with a drive letter and a colon.
pub open spec fn has_drive_letter(s: Seq<char>) -> bool {
    s.len() >= 2 && s[1] == ':' && is_ascii_alpha(s[0])
}

/// Whether a path text starts with a drive letter and a colon.
fn starts_with_drive(s: &[char]) -> (r: bool)
    ensures
        r == has_drive_letter(s@),
{
    s.len() >= 2 && s[1] == ':' && (('a' <= s[0] && s[0] <= 'z') || ('A' <= s[0] && s[0] <= 'Z'))
}

/// Extract the drive letter from a volume path for use as cursor store key:
/// `"C:\\"` gives `"C"`; a path without a drive letter is its own key.
pub fn volume_key(volume: &str) -> (r: String)
    ensures
        r@ == if has_drive_letter(volume@) {
            seq![volume@[0]]
        } else {
            volume@
        },
{
    let v = chars_of(volume);
    if starts_with_drive(v.as_slice()) {
        let mut k: Vec<char> = Vec::new();
        k.push(v[0]);
        string_of(k.as_slice())
    } else {
        volume.to_string()
    }
}

/// Extract the drive letter from a path like `C:\` (for MFT access).
pub fn drive_letter_from_path(volume: &str) -> (r: Result<char, FsIndexerError>)
    ensures
        has_drive_letter(volume@) ==> r == Ok::<char, FsIndexerError>(volume@[0]),
        !has_drive_letter(volume@) ==> (r matches Err(FsIndexerError::Io(m)) && m@
            == "expected a drive letter path like C:\\, got "@ + volume@),
{
    let v = chars_of(volume);
    if starts_with_drive(v.as_slice()) {
        Ok(v[0])
    } else {
        let mut m: Vec<char> = Vec::new();
        push_str(&mut m, "expected a drive letter path like C:\\, got ");
        push_str(&mut m, volume);
        Err(FsIndexerError::Io(string_of(m.as_slice())))
    }
}

/// Extract the drive letter from a path like `C:\` (for the USN journal).
pub fn drive_letter(volume: &str) -> (r: Result<char, FsIndexerError>)
    ensures
        has_drive_letter(volume@) ==> r == Ok::<char, FsIndexerError>(volume@[0]),
        !has_drive_letter(volume@) ==> (r matches Err(FsIndexerError::JournalError(m)) && m@
            == "expected drive letter path like C:\\"@),
{
    let v = chars_of(volume);
    if starts_with_drive(v.as_slice()) {
        Ok(v[0])
    } else {
        Err(FsIndexerError::JournalError(String::from_str("expected drive letter path like C:\\")))
    }
}

// ───────────────────────────── listener ─────────────────────────────

/// Store for USN journal cursors across restarts; implement it to plug in a
/// storage backend. Errors are reported as text.
pub trait UsnCursorStore {
    /// Save a cursor for a volume key (e.g. "C").
    fn save(&self, volume_key: &str, cursor: &UsnCursor) -> Result<(), String>;

    /// Load a cursor for a volume key. Returns None if not found.
    fn load(&self, volume_key: &str) -> Result<Option<UsnCursor>, String>;
}

/// A no-op cursor store that doesn't persist anything.
#[derive(Debug, Clone)]
pub struct NoUsnCursorStore;

impl UsnCursorStore for NoUsnCursorStore {
    fn save(&self, volume_key: &str, cursor: &UsnCursor) -> (r: Result<(), String>)
        ensures
            r is Ok,
    {
        Ok(())
    }

    fn load(&self, volume_key: &str) -> (r: Result<Option<UsnCursor>, String>)
        ensures
            r == Ok::<Option<UsnCursor>, String>(None),
    {
        Ok(None)
    }
}

/// Configuration for the USN journal listener.
#[derive(Debug, Clone)]
pub struct ListenerConfig {
    /// How often to poll the USN journal (default: 100ms).
    pub poll_interval: Duration,
    /// Capacity of the event channel (default: 10,000).
    pub channel_capacity: usize,
    /// Volumes to monitor (e.g. `["C:\\", "D:\\"]`).
    pub volumes: Vec<String>,
}

impl Default for ListenerConfig {
    fn default() -> (r: Self)
        ensures
            r.poll_interval == millis(100),
            r.channel_capacity == 10_000,
            r.volumes@.len() == 0,
    {
        ListenerConfig {
            poll_interval: from_millis(100),
            channel_capacity: 10_000,
            volumes: Vec::new(),
        }
    }
}

impl ListenerConfig {
    /// Set the polling interval.
    pub fn with_poll_interval(self, interval: Duration) -> (r: Self)
        ensures
            r.poll_interval == interval,
            r.channel_capacity == self.channel_capacity,
            r.volumes@ == self.volumes@,
    {
        ListenerConfig { poll_interval: interval, ..self }
    }

    /// Set the channel capacity.
    pub fn with_capacity(self, capacity: usize) -> (r: Self)
        ensures
            r.poll_interval == self.poll_interval,
            r.channel_capacity == capacity,
            r.volumes@ == self.volumes@,
    {
        ListenerConfig { channel_capacity: capacity, ..self }
    }

    /// Add a volume to monitor.
    pub fn add_volume(self, volume: String) -> (r: Self)
        ensures
            r.poll_interval == self.poll_interval,
            r.channel_capacity == self.channel_capacity,
            r.volumes@ == self.volumes@.push(volume),
    {
        let mut volumes = self.volumes;
        volumes.push(volume);
        ListenerConfig { poll_interval: self.poll_interval, channel_capacity: self.channel_capacity, volumes }
    }
}

/// The cursor to start polling from: a persisted one if the store had it,
/// otherwise none (a fresh one is to be read from the journal).
pub fn starting_cursor(loaded: Result<Option<UsnCursor>, String>) -> (r: Option<UsnCursor>)
    ensures
        r == match loaded {
            Ok(Some(c)) => Some(c),
            _ => None::<UsnCursor>,
        },
{
    match loaded {
        Ok(Some(c)) => Some(c),
        _ => None,
    }
}

/// Whether a successful poll shows the journal was recreated (its ID
/// changed from a known, nonzero one), which calls for a full rescan.
pub fn journal_recreated(cursor: UsnCursor, new_cursor: UsnCursor) -> (r: bool)
    ensures
        r == (new_cursor.journal_id != cursor.journal_id && cursor.journal_id != 0),
{
    new_cursor.journal_id != cursor.journal_id && cursor.journal_id != 0
}

/// The reason given for a rescan after the journal ID changed.
pub fn journal_changed_reason(old_id: u64, new_id: u64) -> (r: String)
    ensures
        r@ == "USN journal ID changed from "@ + decimal(old_id as nat) + " to "@ + decimal(new_id as nat),
{
    let mut v: Vec<char> = Vec::new();
    push_str(&mut v, "USN journal ID changed from ");
    push_decimal(&mut v, old_id);
    push_str(&mut v, " to ");
    push_decimal(&mut v, new_id);
    string_of(v.as_slice())
}

/// Whether a poll error looks like a wrapped or invalid journal, which calls
/// for a full rescan and a fresh cursor.
pub fn poll_error_needs_rescan(message: &str) -> (r: bool)
    ensures
        r == (contains_seq(message@, "journal"@) || contains_seq(message@, "invalid"@)),
{
    let m = chars_of(message);
    let j = chars_of("journal");
    let i = chars_of("invalid");
    contains_chars(m.as_slice(), j.as_slice()) || contains_chars(m.as_slice(), i.as_slice())
}

/// The reason given for a rescan after a poll error.
pub fn poll_error_reason(message: &str) -> (r: String)
    ensures
        r@ == "USN poll error: "@ + message@,
{
    let mut v: Vec<char> = Vec::new();
    push_str(&mut v, "USN poll error: ");
    push_str(&mut v, message);
    string_of(v.as_slice())
}

// ───────────────────────────── USN records ─────────────────────────────

/// One record read from the USN journal.
#[derive(Debug, Clone)]
pub struct UsnRecord {
    /// Update sequence number of the record.
    pub usn: i64,
    /// USN_REASON_* flags.
    pub reason: u32,
    /// File reference number.
    pub fid: u64,
    /// Parent directory FRN.
    pub parent_fid: u64,
    /// File name.
    pub file_name: String,
    /// Win32 file attributes.
    pub file_attributes: u32,
}

/// A change decoded from a USN record.
#[derive(Debug, Clone)]
pub enum UsnChange {
    /// A file was created (path and size still to be filled in).
    Created { fid: u64, parent_fid: u64, name: String, attributes: u32 },
    /// A file was deleted.
    Deleted { fid: u64 },
    /// A file was renamed or moved.
    Moved { fid: u64, new_parent_fid: u64, new_name: String },
    /// A file's data was extended, truncated or overwritten.
    Modified { fid: u64 },
}

/// Whether a record's reason flags make a change: creation first, then
/// deletion, renaming, and data changes.
pub open spec fn reason_makes_change(reason: u32) -> bool {
    (reason & USN_REASON_FILE_CREATE) != 0 || (reason & USN_REASON_FILE_DELETE) != 0 || (reason
        & USN_REASON_RENAME_NEW_NAME) != 0 || (reason & (USN_REASON_DATA_EXTEND
        | USN_REASON_DATA_TRUNCATION | USN_REASON_DATA_OVERWRITE)) != 0
}

/// `c` is the change that record `rec` makes.
pub open spec fn is_change_of(c: UsnChange, rec: UsnRecord) -> bool {
    if (rec.reason & USN_REASON_FILE_CREATE) != 0 {
        c matches UsnChange::Created { fid, parent_fid, name, attributes } && fid == rec.fid
            && parent_fid == rec.parent_fid && name@ == rec.file_name@ && attributes
            == rec.file_attributes
    } else if (rec.reason & USN_REASON_FILE_DELETE) != 0 {
        c == UsnChange::Deleted { fid: rec.fid }
    } else if (rec.reason & USN_REASON_RENAME_NEW_NAME) != 0 {
        c matches UsnChange::Moved { fid, new_parent_fid, new_name } && fid == rec.fid
            && new_parent_fid == rec.parent_fid && new_name@ == rec.file_name@
    } else {
        c == UsnChange::Modified { fid: rec.fid }
    }
}

/// The positions, among the first `k` records, of those at or after the
/// cursor that make a change.
pub open spec fn change_sources(next_usn: i64, recs: Seq<UsnRecord>, k: int) -> Seq<int>
    decreases k,
{
    if k <= 0 {
        seq![]
    } else {
        change_sources(next_usn, recs, k - 1) + if recs[k - 1].usn >= next_usn
            && reason_makes_change(recs[k - 1].reason) {
            seq![k - 1]
        } else {
            seq![]
        }
    }
}

/// A record is a rename at or after the cursor, neither a creation nor a
/// deletion (`USN_REASON_RENAME_NEW_NAME` set, `USN_REASON_FILE_CREATE` and
/// `USN_REASON_FILE_DELETE` clear).
pub open spec fn is_plain_rename(next_usn: i64, rec: UsnRecord) -> bool {
    &&& rec.usn >= next_usn
    &&& rec.reason & 0x2000u32 != 0
    &&& rec.reason & 0x100u32 == 0
    &&& rec.reason & 0x200u32 == 0
}

/// The change sources are increasing positions below `k`, and a position is
/// among them exactly when its record is at or after the cursor and makes a
/// change.
proof fn lemma_change_sources(next_usn: i64, recs: Seq<UsnRecord>, k: int)
    requires
        0 <= k <= recs.len(),
    ensures
        forall|a: int, b: int| 0 <= a < b < change_sources(next_usn, recs, k).len()
            ==> change_sources(next_usn, recs, k)[a] < change_sources(next_usn, recs, k)[b],
        forall|a: int| 0 <= a < change_sources(next_usn, recs, k).len()
            ==> 0 <= #[trigger] change_sources(next_usn, recs, k)[a] < k,
        forall|j: int| 0 <= j < k ==> (change_sources(next_usn, recs, k).contains(j)
            <==> (recs[j].usn >= next_usn && reason_makes_change(recs[j].reason))),
    decreases k,
{
    if k > 0 {
        lemma_change_sources(next_usn, recs, k - 1);
        let prev = change_sources(next_usn, recs, k - 1);
        let cur = change_sources(next_usn, recs, k);
        assert forall|j: int| 0 <= j < k implies (cur.contains(j)
            <==> (recs[j].usn >= next_usn && reason_makes_change(recs[j].reason))) by {
            if j < k - 1 {
                if prev.contains(j) {
                    let w = choose|w: int| 0 <= w < prev.len() && prev[w] == j;
                    assert(cur[w] == j);
                }
                if cur.contains(j) {
                    let w = choose|w: int| 0 <= w < cur.len() && cur[w] == j;
                    if w < prev.len() {
                        assert(prev[w] == j);
                    }
                }
            } else {
                if recs[j].usn >= next_usn && reason_makes_change(recs[j].reason) {
                    assert(cur[prev.len() as int] == j);
                }
                if cur.contains(j) {
                    let w = choose|w: int| 0 <= w < cur.len() && cur[w] == j;
                    if w < prev.len() {
                        assert(prev[w] == j);
                    }
                }
            }
        }
    }
}

/// A rename that is neither a creation nor a deletion, at or after the
/// cursor, gives exactly one change, and that change is a move of the
/// record's file to the record's parent under the record's name.
pub proof fn lemma_rename_gives_one_move(next_usn: i64, recs: Seq<UsnRecord>, j: int)
    requires
        0 <= j < recs.len(),
        is_plain_rename(next_usn, recs[j]),
    ensures
        exists|i: int| 0 <= i < change_sources(next_usn, recs, recs.len() as int).len()
            && change_sources(next_usn, recs, recs.len() as int)[i] == j,
        forall|a: int, b: int|
            0 <= a < change_sources(next_usn, recs, recs.len() as int).len()
            && 0 <= b < change_sources(next_usn, recs, recs.len() as int).len()
            && change_sources(next_usn, recs, recs.len() as int)[a] == j
            && change_sources(next_usn, recs, recs.len() as int)[b] == j ==> a == b,
        forall|c: UsnChange| is_change_of(c, recs[j]) ==> (c matches UsnChange::Moved { fid, new_parent_fid, new_name }
            && fid == recs[j].fid && new_parent_fid == recs[j].parent_fid && new_name@ == recs[j].file_name@),
{
    let n = recs.len() as int;
    lemma_change_sources(next_usn, recs, n);
    let reason = recs[j].reason;
    assert(reason & 0x2000u32 != 0 ==> (reason & 0x100u32 != 0 || reason & 0x200u32 != 0 || reason & 0x2000u32 != 0
        || reason & (0x2u32 | 0x4u32 | 0x1u32) != 0)) by (bit_vector);
    assert(reason_makes_change(reason));
    assert(change_sources(next_usn, recs, n).contains(j));
    let cs = change_sources(next_usn, recs, n);
    assert forall|a: int, b: int|
        0 <= a < cs.len() && 0 <= b < cs.len() && cs[a] == j && cs[b] == j implies a == b by {
        if a < b {
            assert(cs[a] < cs[b]);
        } else if b < a {
            assert(cs[b] < cs[a]);
        }
    }
}

/// What each journal record gives, by its reason bits
/// (`USN_REASON_FILE_CREATE` `0x100`, `USN_REASON_FILE_DELETE` `0x200`,
/// `USN_REASON_RENAME_NEW_NAME` `0x2000`, data overwrite/extend/truncation
/// `0x1`/`0x2`/`0x4`), checked in that order: a creation, else a deletion,
/// else a move, else a modification; a record with none of these bits, or
/// before the cursor, gives nothing.
pub proof fn lemma_record_change_kinds(next_usn: i64, recs: Seq<UsnRecord>, j: int)
    requires
        0 <= j < recs.len(),
    ensures
        ({
            let rec = recs[j];
            let cs = change_sources(next_usn, recs, recs.len() as int);
            &&& (rec.usn < next_usn || rec.reason & (0x100u32 | 0x200u32 | 0x2000u32 | 0x7u32) == 0) ==> !cs.contains(j)
            &&& (rec.usn >= next_usn && rec.reason & (0x100u32 | 0x200u32 | 0x2000u32 | 0x7u32) != 0) ==> cs.contains(j)
            &&& rec.reason & 0x100u32 != 0 ==> forall|c: UsnChange| is_change_of(c, rec) ==> (c matches UsnChange::Created {
                fid, parent_fid, name, attributes } && fid == rec.fid && parent_fid == rec.parent_fid && name@ == rec.file_name@
                && attributes == rec.file_attributes)
            &&& (rec.reason & 0x100u32 == 0 && rec.reason & 0x200u32 != 0) ==> forall|c: UsnChange| is_change_of(c, rec) ==> c
                == UsnChange::Deleted { fid: rec.fid }
            &&& (rec.reason & (0x100u32 | 0x200u32 | 0x2000u32) == 0 && rec.reason & 0x7u32 != 0) ==> forall|c: UsnChange|
                is_change_of(c, rec) ==> c == UsnChange::Modified { fid: rec.fid }
        }),
{
    let n = recs.len() as int;
    lemma_change_sources(next_usn, recs, n);
    let reason = recs[j].reason;
    assert((reason & (0x100u32 | 0x200u32 | 0x2000u32 | 0x7u32) == 0) == (reason & 0x100u32 == 0 && reason & 0x200u32 == 0
        && reason & 0x2000u32 == 0 && reason & (0x2u32 | 0x4u32 | 0x1u32) == 0)) by (bit_vector);
    assert((reason & (0x100u32 | 0x200u32 | 0x2000u32) == 0) == (reason & 0x100u32 == 0 && reason & 0x200u32 == 0
        && reason & 0x2000u32 == 0)) by (bit_vector);
    assert((reason & 0x7u32 != 0) == (reason & (0x2u32 | 0x4u32 | 0x1u32) != 0)) by (bit_vector);
}

/// The greatest USN among the cursor and the first `k` records at or after it.
pub open spec fn max_usn(next_usn: i64, recs: Seq<UsnRecord>, k: int) -> i64
    decreases k,
{
    if k <= 0 {
        next_usn
    } else {
        let m = max_usn(next_usn, recs, k - 1);
        if recs[k - 1].usn >= next_usn && recs[k - 1].usn > m {
            recs[k - 1].usn
        } else {
            m
        }
    }
}

/// The greatest USN seen is below `i64::MAX` when every one is.
proof fn lemma_max_usn_bound(next_usn: i64, recs: Seq<UsnRecord>, k: int)
    requires
        next_usn < i64::MAX,
        0 <= k <= recs.len(),
        forall|i: int| 0 <= i < recs.len() ==> (#[trigger] recs[i]).usn < i64::MAX,
    ensures
        max_usn(next_usn, recs, k) < i64::MAX,
    decreases k,
{
    if k > 0 {
        lemma_max_usn_bound(next_usn, recs, k - 1);
    }
}

/// Decode the changes of a batch of journal records read from `cursor` on,
/// and the cursor to continue from: one past the greatest USN seen (records
/// before the cursor are skipped).
pub fn usn_changes(cursor: UsnCursor, records: &[UsnRecord]) -> (r: (Vec<UsnChange>, UsnCursor))
    requires
        cursor.next_usn < i64::MAX,
        forall|i: int| 0 <= i < records@.len() ==> (#[trigger] records@[i]).usn < i64::MAX,
    ensures
        r.0.len() == change_sources(cursor.next_usn, records@, records@.len() as int).len(),
        forall|i: int|
            0 <= i < r.0.len() ==> is_change_of(
                #[trigger] r.0@[i],
                records@[change_sources(cursor.next_usn, records@, records@.len() as int)[i]],
            ),
        r.1 == (UsnCursor {
            journal_id: cursor.journal_id,
            next_usn: (max_usn(cursor.next_usn, records@, records@.len() as int) + 1) as i64,
        }),
        forall|j: int| 0 <= j < records@.len() && is_plain_rename(cursor.next_usn, #[trigger] records@[j]) ==> exists|i: int|
            0 <= i < r.0.len() && change_sources(cursor.next_usn, records@, records@.len() as int)[i] == j
            && (r.0@[i] matches UsnChange::Moved { fid, new_parent_fid, new_name } && fid == records@[j].fid
            && new_parent_fid == records@[j].parent_fid && new_name@ == records@[j].file_name@),
{
    let mut changes: Vec<UsnChange> = Vec::new();
    let mut max: i64 = cursor.next_usn;
    let mut k: usize = 0;
    while k < records.len()
        invariant
            0 <= k <= records@.len(),
            cursor.next_usn < i64::MAX,
            forall|i: int| 0 <= i < records@.len() ==> (#[trigger] records@[i]).usn < i64::MAX,
            max == max_usn(cursor.next_usn, records@, k as int),
            changes.len() == change_sources(cursor.next_usn, records@, k as int).len(),
            forall|i: int| 0 <= i < changes.len() ==> is_change_of(
                #[trigger] changes@[i],
                records@[change_sources(cursor.next_usn, records@, k as int)[i]],
            ),
        decreases records@.len() - k,
    {
        let rec = &records[k];
        if rec.usn >= cursor.next_usn {
            if rec.usn > max {
                max = rec.usn;
            }
            let reason = rec.reason;
            if (reason & USN_REASON_FILE_CREATE) != 0 {
                changes.push(UsnChange::Created {
                    fid: rec.fid,
                    parent_fid: rec.parent_fid,
                    name: rec.file_name.clone(),
                    attributes: rec.file_attributes,
                });
            } else if (reason & USN_REASON_FILE_DELETE) != 0 {
                changes.push(UsnChange::Deleted { fid: rec.fid });
            } else if (reason & USN_REASON_RENAME_NEW_NAME) != 0 {
                changes.push(UsnChange::Moved {
                    fid: rec.fid,
                    new_parent_fid: rec.parent_fid,
                    new_name: rec.file_name.clone(),
                });
            } else if (reason & (USN_REASON_DATA_EXTEND | USN_REASON_DATA_TRUNCATION
                | USN_REASON_DATA_OVERWRITE)) != 0 {
                changes.push(UsnChange::Modified { fid: rec.fid });
            }
        }
        proof {
            let prev = change_sources(cursor.next_usn, records@, k as int);
            let cur = change_sources(cursor.next_usn, records@, k + 1);
            assert forall|i: int| 0 <= i < prev.len() implies cur[i] == prev[i] by {}
        }
        k = k + 1;
    }
    proof {
        lemma_max_usn_bound(cursor.next_usn, records@, records@.len() as int);
        let cs = change_sources(cursor.next_usn, records@, records@.len() as int);
        assert forall|j: int| 0 <= j < records@.len() && is_plain_rename(cursor.next_usn, #[trigger] records@[j]) implies exists|i: int|
            0 <= i < changes@.len() && cs[i] == j
            && (changes@[i] matches UsnChange::Moved { fid, new_parent_fid, new_name } && fid == records@[j].fid
            && new_parent_fid == records@[j].parent_fid && new_name@ == records@[j].file_name@) by {
            lemma_rename_gives_one_move(cursor.next_usn, records@, j);
            let i = choose|i: int| 0 <= i < cs.len() && cs[i] == j;
            assert(is_change_of(changes@[i], records@[cs[i]]));
        }
    }
    (changes, UsnCursor { journal_id: cursor.journal_id, next_usn: max + 1 })
}

/// Statistics from the enrichment pass.
#[derive(Debug, Clone)]
pub struct EnrichStats {
    /// Number of entries successfully enriched.
    pub enriched: u64,
    /// Number of entries skipped (access denied, locked, etc.).
    pub skipped: u64,
    /// Subset of skipped: access denied.
    pub access_denied: u64,
    /// Subset of skipped: file/path not found.
    pub not_found: u64,
    /// Subset of skipped: other errors.
    pub other_errors: u64,
}

/// What querying one file's sizes gave.
pub enum WinEnrichOutcome {
    /// Opened; `FileStandardInfo` gave the logical and on-disk sizes.
    Opened { end_of_file: i64, allocation: i64 },
    /// Opening failed with this `HRESULT` code.
    OpenFailed { code: u32 },
    /// Opened, but `GetFileInformationByHandleEx` failed.
    InfoFailed,
}

/// A size of `FileStandardInfo`, clamped at zero.
pub open spec fn clamped(v: i64) -> u64 {
    if v < 0 {
        0
    } else {
        v as u64
    }
}

/// The counters are as before, but for those named.
pub open spec fn counts_kept(a: EnrichStats, b: EnrichStats) -> bool {
    &&& a.enriched == b.enriched
    &&& a.skipped == b.skipped
    &&& a.access_denied == b.access_denied
    &&& a.not_found == b.not_found
    &&& a.other_errors == b.other_errors
}

/// One entry of the Windows enrichment pass: a directory is left as it is;
/// a file that was opened and queried gets its sizes (negative ones clamped
/// to 0) and counts as enriched; a file that could not be opened or queried
/// gets size 0 and counts as skipped, an open failure also by its kind
/// (access denied `0x80070005`; not found `0x80070002`, `0x80070003`; any
/// other code), a failed query as another error. Returns the logical and
/// allocated sizes to record.
pub fn enrich_windows_entry(stats: &mut EnrichStats, is_dir: bool, outcome: WinEnrichOutcome) -> (r: Option<(u64, u64)>)
    requires
        old(stats).enriched < u64::MAX,
        old(stats).skipped < u64::MAX,
        old(stats).access_denied < u64::MAX,
        old(stats).not_found < u64::MAX,
        old(stats).other_errors < u64::MAX,
    ensures
        is_dir ==> r is None && counts_kept(*final(stats), *old(stats)),
        !is_dir ==> match outcome {
            WinEnrichOutcome::Opened { end_of_file, allocation } => {
                &&& r == Some((clamped(end_of_file), clamped(allocation)))
                &&& final(stats).enriched == old(stats).enriched + 1
                &&& counts_kept(EnrichStats { enriched: old(stats).enriched, ..*final(stats) }, *old(stats))
            },
            WinEnrichOutcome::OpenFailed { code } => {
                &&& r == Some((0u64, 0u64))
                &&& final(stats).skipped == old(stats).skipped + 1
                &&& (code == 0x80070005 ==> final(stats).access_denied == old(stats).access_denied + 1
                    && counts_kept(EnrichStats { skipped: old(stats).skipped, access_denied: old(stats).access_denied, ..*final(stats) }, *old(stats)))
                &&& ((code == 0x80070002 || code == 0x80070003) ==> final(stats).not_found == old(stats).not_found + 1
                    && counts_kept(EnrichStats { skipped: old(stats).skipped, not_found: old(stats).not_found, ..*final(stats) }, *old(stats)))
                &&& (!(code == 0x80070005 || code == 0x80070002 || code == 0x80070003) ==> final(stats).other_errors
                    == old(stats).other_errors + 1 && counts_kept(EnrichStats { skipped: old(stats).skipped, other_errors: old(stats).other_errors, ..*final(stats) }, *old(stats)))
            },
            WinEnrichOutcome::InfoFailed => {
                &&& r == Some((0u64, 0u64))
                &&& final(stats).skipped == old(stats).skipped + 1
                &&& final(stats).other_errors == old(stats).other_errors + 1
                &&& counts_kept(EnrichStats { skipped: old(stats).skipped, other_errors: old(stats).other_errors, ..*final(stats) }, *old(stats))
            },
        },
{
    if is_dir {
        return None;
    }
    match outcome {
        WinEnrichOutcome::Opened { end_of_file, allocation } => {
            stats.enriched = stats.enriched + 1;
            let e: u64 = if end_of_file < 0 { 0 } else { end_of_file as u64 };
            let a: u64 = if allocation < 0 { 0 } else { allocation as u64 };
            Some((e, a))
        },
        WinEnrichOutcome::OpenFailed { code } => {
            if code == 0x80070005 {
                stats.access_denied = stats.access_denied + 1;
            } else if code == 0x80070002 || code == 0x80070003 {
                stats.not_found = stats.not_found + 1;
            } else {
                stats.other_errors = stats.other_errors + 1;
            }
            stats.skipped = stats.skipped + 1;
            Some((0, 0))
        },
        WinEnrichOutcome::InfoFailed => {
            stats.other_errors = stats.other_errors + 1;
            stats.skipped = stats.skipped + 1;
            Some((0, 0))
        },
    }
}

} // verus!
