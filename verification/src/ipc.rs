//! Wire protocol between the indexer daemon and its privileged helper.
//!
//! Each message is length-prefixed: `[u32 LE length][payload]`, the payload
//! being the MessagePack encoding of a request or response. This module holds
//! the message types and the framing; encoding the payload is the caller's.

use vstd::prelude::*;
use crate::indexer::error::{error_message, FsIndexerError};
use crate::text::{decimal, push_decimal, push_str, string_of};

verus! {

broadcast use vstd::string::group_string_axioms;

/// Named pipe path used by the Windows helper.
pub const PIPE_NAME: &'static str = "\\\\.\\pipe\\hyprdrive-helper";

/// Maximum message size (128 MiB).
pub const MAX_MESSAGE_SIZE: u32 = 128 * 1024 * 1024;

/// Protocol version for forward compatibility.
pub const PROTOCOL_VERSION: u32 = 1;

/// Request sent from daemon to helper.
#[derive(Debug, Clone, PartialEq)]
pub enum HelperRequest {
    /// Ping — check if the helper is alive.
    Ping,
    /// Full MFT scan of a volume.
    ScanVolume { volume: String },
    /// Read the current USN journal cursor.
    ReadCursor { volume: String },
    /// Poll USN journal for changes since a cursor position.
    PollChanges { volume: String, journal_id: u64, next_usn: i64 },
    /// Graceful shutdown request.
    Shutdown,
}

/// Response sent from helper to daemon.
#[derive(Debug, Clone, PartialEq)]
pub enum HelperResponse {
    /// Pong — helper is alive.
    Pong { version: String, protocol_version: u32 },
    /// Full scan result.
    ScanResult { entries: Vec<WireIndexEntry>, cursor: Option<WireCursor> },
    /// USN cursor position.
    Cursor(WireCursor),
    /// USN journal changes since last cursor.
    Changes { events: Vec<WireChange>, new_cursor: WireCursor },
    /// Operation completed successfully (e.g., shutdown acknowledgement);
    /// `Ok` on the wire.
    Ack,
    /// Error response.
    Error { code: ErrorCode, message: String },
}

/// Wire-format index entry.
#[derive(Debug, Clone, PartialEq)]
pub struct WireIndexEntry {
    /// File Reference Number (NTFS) or synthetic ID.
    pub fid: u64,
    /// Parent directory's FRN.
    pub parent_fid: u64,
    /// UTF-8 lossy filename.
    pub name: String,
    /// Full path from volume root.
    pub full_path: String,
    /// Logical file size in bytes.
    pub size: u64,
    /// On-disk allocated size in bytes.
    pub allocated_size: u64,
    /// Whether this entry is a directory.
    pub is_dir: bool,
    /// Last modification time as UTC epoch seconds.
    pub modified_at_epoch: i64,
    /// Win32 FILE_ATTRIBUTE_* flags.
    pub attributes: u32,
}

/// Wire-format USN cursor.
#[derive(Debug, Clone, Copy, PartialEq, Eq, Structural)]
pub struct WireCursor {
    /// The USN journal ID.
    pub journal_id: u64,
    /// The next USN to read from.
    pub next_usn: i64,
}

/// Wire-format filesystem change event.
#[derive(Debug, Clone, PartialEq)]
pub enum WireChange {
    /// A new file or directory was created.
    Created(WireIndexEntry),
    /// A file or directory was deleted.
    Deleted { fid: u64 },
    /// A file or directory was moved or renamed.
    Moved { fid: u64, new_parent_fid: u64, new_name: String },
    /// A file's content was modified.
    Modified { fid: u64, new_size: u64 },
    /// A full rescan is needed.
    FullRescanNeeded { volume: String, reason: String },
}

/// Error codes for programmatic error handling.
#[derive(Debug, Clone, Copy, PartialEq, Eq, Structural)]
pub enum ErrorCode {
    /// Volume not found or not NTFS.
    InvalidVolume,
    /// MFT access failed (permissions, volume locked, etc.).
    MftAccessDenied,
    /// USN journal error (wrapped, recreated, etc.).
    JournalError,
    /// Protocol version mismatch.
    ProtocolMismatch,
    /// Internal/unexpected error.
    Internal,
}

/// Why a frame could not be written or read.
#[derive(Debug, Clone, Copy, PartialEq, Eq, Structural)]
pub enum FrameError {
    /// The length prefix or the payload ends early.
    Truncated,
    /// The (prefixed) length exceeds [`MAX_MESSAGE_SIZE`].
    TooLarge(u32),
}

impl FrameError {
    /// The error's message.
    pub fn message(&self) -> (r: String)
        ensures
            r@ == match *self {
                FrameError::Truncated => "failed to fill whole buffer"@,
                FrameError::TooLarge(len) => "message too large: "@ + decimal(len as nat) + " > "@
                    + decimal(MAX_MESSAGE_SIZE as nat),
            },
    {
        let mut v: Vec<char> = Vec::new();
        match self {
            FrameError::Truncated => push_str(&mut v, "failed to fill whole buffer"),
            FrameError::TooLarge(len) => {
                push_str(&mut v, "message too large: ");
                push_decimal(&mut v, *len as u64);
                push_str(&mut v, " > ");
                push_decimal(&mut v, MAX_MESSAGE_SIZE as u64);
            },
        }
        string_of(v.as_slice())
    }
}

/// The four little-endian bytes of `n`.
pub open spec fn le_bytes(n: u32) -> Seq<u8> {
    seq![
        (n % 256) as u8,
        ((n / 256) % 256) as u8,
        (((n / 256) / 256) % 256) as u8,
        (((n / 256) / 256) / 256) as u8,
    ]
}

/// The number whose little-endian bytes are the first four of `b`.
pub open spec fn le_value(b: Seq<u8>) -> u32 {
    (b[0] as int + b[1] as int * 256 + b[2] as int * 65536 + b[3] as int * 16777216) as u32
}

/// The length prefix of a payload of `n` bytes: `n` as a `u32`, that is,
/// modulo 2^32.
pub open spec fn prefix_of(n: nat) -> u32 {
    (n % 0x1_0000_0000) as u32
}

/// The frame of a payload: its length prefix, then the payload.
pub open spec fn frame_of(payload: Seq<u8>) -> Seq<u8> {
    le_bytes(prefix_of(payload.len())) + payload
}

/// Frame a payload for the wire: `[u32 LE length][payload]`. A payload whose
/// length, as a `u32`, exceeds [`MAX_MESSAGE_SIZE`] is refused.
pub fn frame_payload(payload: &[u8]) -> (r: Result<Vec<u8>, FrameError>)
    ensures
        prefix_of(payload@.len()) > MAX_MESSAGE_SIZE ==> r == Err::<Vec<u8>, FrameError>(
            FrameError::TooLarge(prefix_of(payload@.len())),
        ),
        prefix_of(payload@.len()) <= MAX_MESSAGE_SIZE ==> (r matches Ok(v) && v@ == frame_of(payload@)),
{
    let len: u32 = ((payload.len() as u64) % 0x1_0000_0000u64) as u32;
    if len > MAX_MESSAGE_SIZE {
        return Err(FrameError::TooLarge(len));
    }
    let mut out: Vec<u8> = Vec::new();
    out.push((len % 256) as u8);
    out.push(((len / 256) % 256) as u8);
    out.push((((len / 256) / 256) % 256) as u8);
    out.push((((len / 256) / 256) / 256) as u8);
    let mut i: usize = 0;
    while i < payload.len()
        invariant
            0 <= i <= payload@.len(),
            out@ == le_bytes(len) + payload@.take(i as int),
        decreases payload@.len() - i,
    {
        out.push(payload[i]);
        proof {
            assert(payload@.take(i + 1) =~= payload@.take(i as int).push(payload@[i as int]));
        }
        i = i + 1;
    }
    proof {
        assert(payload@.take(payload@.len() as int) =~= payload@);
    }
    Ok(out)
}

/// The frame at the start of `buf`, when a whole one is there: its payload
/// and the number of bytes it takes.
pub open spec fn parsed(buf: Seq<u8>) -> Option<(Seq<u8>, int)> {
    if buf.len() >= 4 && le_value(buf) <= MAX_MESSAGE_SIZE && buf.len() >= 4 + le_value(buf) {
        Some((buf.subrange(4, 4 + le_value(buf)), 4 + le_value(buf)))
    } else {
        None
    }
}

/// Read one frame from the start of `buf`: the payload and the number of
/// bytes the frame takes.
pub fn parse_frame(buf: &[u8]) -> (r: Result<(Vec<u8>, usize), FrameError>)
    ensures
        match r {
            Ok((p, n)) => parsed(buf@) == Some((p@, n as int)),
            Err(_) => parsed(buf@) is None,
        },
        buf@.len() < 4 ==> r == Err::<(Vec<u8>, usize), FrameError>(FrameError::Truncated),
        buf@.len() >= 4 && le_value(buf@) > MAX_MESSAGE_SIZE ==> r == Err::<(Vec<u8>, usize), FrameError>(
            FrameError::TooLarge(le_value(buf@)),
        ),
        buf@.len() >= 4 && le_value(buf@) <= MAX_MESSAGE_SIZE && buf@.len() < 4 + le_value(buf@)
            ==> r == Err::<(Vec<u8>, usize), FrameError>(FrameError::Truncated),
        buf@.len() >= 4 && le_value(buf@) <= MAX_MESSAGE_SIZE && buf@.len() >= 4 + le_value(buf@)
            ==> (r matches Ok((p, n)) && n == 4 + le_value(buf@) && p@ == buf@.subrange(
            4,
            n as int,
        )),
{
    if buf.len() < 4 {
        return Err(FrameError::Truncated);
    }
    let len: u32 = (buf[0] as u32) + (buf[1] as u32) * 256 + (buf[2] as u32) * 65536 + (buf[3] as u32)
        * 16777216;
    if len > MAX_MESSAGE_SIZE {
        return Err(FrameError::TooLarge(len));
    }
    let n: usize = len as usize;
    if buf.len() - 4 < n {
        return Err(FrameError::Truncated);
    }
    let mut payload: Vec<u8> = Vec::new();
    let mut i: usize = 0;
    while i < n
        invariant
            0 <= i <= n,
            4 + n <= buf.len(),
            payload@ == buf@.subrange(4, 4 + i),
        decreases n - i,
    {
        let idx: usize = i + 4;
        payload.push(buf[idx]);
        proof {
            assert(buf@.subrange(4, 4 + i + 1) =~= buf@.subrange(4, 4 + i).push(buf@[4 + i]));
        }
        i = i + 1;
    }
    Ok((payload, 4 + n))
}

/// Reading frames back: a buffer that starts with the frame of `payload`
/// (of at most [`MAX_MESSAGE_SIZE`] bytes) parses to `payload`, and what the
/// frame leaves is exactly what followed it, so frames written one after
/// another read back one after another, in order.
pub proof fn lemma_parse_framed(payload: Seq<u8>, rest: Seq<u8>)
    requires
        payload.len() <= MAX_MESSAGE_SIZE,
    ensures
        parsed(frame_of(payload) + rest) == Some((payload, 4 + payload.len() as int)),
        (frame_of(payload) + rest).subrange(4 + payload.len() as int, (frame_of(payload) + rest).len() as int) == rest,
{
    lemma_frame_roundtrip(payload, rest);
    let buf = frame_of(payload) + rest;
    assert(buf.subrange(4 + payload.len() as int, buf.len() as int) =~= rest);
}

/// The prefix bytes read back give the length written.
pub proof fn lemma_le_roundtrip(n: u32)
    ensures
        le_value(le_bytes(n)) == n,
{
    let q1 = n / 256;
    let q2 = q1 / 256;
    let q3 = q2 / 256;
    assert(n == n % 256 + 256 * q1);
    assert(q1 == q1 % 256 + 256 * q2);
    assert(q2 == q2 % 256 + 256 * q3);
    assert(q3 < 256);
}

/// A frame read back from the start of a buffer gives the payload that was
/// framed, whatever follows it in the buffer; the frame takes four bytes more
/// than the payload. (Payloads of 4 GiB or more are framed with their length
/// modulo 2^32 and do not read back.)
pub proof fn lemma_frame_roundtrip(payload: Seq<u8>, rest: Seq<u8>)
    requires
        payload.len() <= MAX_MESSAGE_SIZE,
    ensures
        ({
            let buf = frame_of(payload) + rest;
            &&& buf.len() >= 4
            &&& le_value(buf) == payload.len()
            &&& le_value(buf) <= MAX_MESSAGE_SIZE
            &&& buf.len() >= 4 + le_value(buf)
            &&& buf.subrange(4, 4 + le_value(buf)) == payload
        }),
{
    let len = prefix_of(payload.len());
    lemma_le_roundtrip(len);
    let buf = frame_of(payload) + rest;
    assert(len == payload.len());
    assert(buf.subrange(0, 4) =~= le_bytes(len));
    assert(le_value(buf) == le_value(le_bytes(len)));
    assert(buf.subrange(4, 4 + payload.len() as int) =~= payload);
}

/// What the helper does for a request.
#[derive(Debug, Clone, PartialEq)]
pub enum HelperAction {
    /// Answer with its version.
    Pong,
    /// Scan the volume.
    Scan { volume: String },
    /// Read the volume's journal cursor.
    ReadCursor { volume: String },
    /// Read the journal from the cursor on.
    Poll { volume: String, cursor: WireCursor },
    /// Acknowledge, then stop serving.
    Stop,
}

/// The helper's action for a request.
pub open spec fn planned_action(request: HelperRequest) -> HelperAction {
    match request {
        HelperRequest::Ping => HelperAction::Pong,
        HelperRequest::ScanVolume { volume } => HelperAction::Scan { volume },
        HelperRequest::ReadCursor { volume } => HelperAction::ReadCursor { volume },
        HelperRequest::PollChanges { volume, journal_id, next_usn } => HelperAction::Poll {
            volume,
            cursor: WireCursor { journal_id, next_usn },
        },
        HelperRequest::Shutdown => HelperAction::Stop,
    }
}

/// Decides the helper's action for a request.
pub fn plan_request(request: &HelperRequest) -> (r: HelperAction)
    ensures
        r == planned_action(*request),
{
    match request {
        HelperRequest::Ping => HelperAction::Pong,
        HelperRequest::ScanVolume { volume } => HelperAction::Scan { volume: volume.clone() },
        HelperRequest::ReadCursor { volume } => HelperAction::ReadCursor { volume: volume.clone() },
        HelperRequest::PollChanges { volume, journal_id, next_usn } => HelperAction::Poll {
            volume: volume.clone(),
            cursor: WireCursor { journal_id: *journal_id, next_usn: *next_usn },
        },
        HelperRequest::Shutdown => HelperAction::Stop,
    }
}

/// The answer to a ping: the helper's version and the protocol version.
pub fn pong(version: String) -> (r: HelperResponse)
    ensures
        r is Pong,
        r->version == version,
        r->protocol_version == PROTOCOL_VERSION,
{
    HelperResponse::Pong { version, protocol_version: PROTOCOL_VERSION }
}

/// The error code of a failed scan: access to the MFT denied, an
/// unsupported volume, or anything else.
pub open spec fn scan_code(e: FsIndexerError) -> ErrorCode {
    match e {
        FsIndexerError::MftAccess { .. } => ErrorCode::MftAccessDenied,
        FsIndexerError::UnsupportedFs { .. } => ErrorCode::InvalidVolume,
        _ => ErrorCode::Internal,
    }
}

/// Decides the error code of a failed scan.
pub fn scan_error_code(e: &FsIndexerError) -> (r: ErrorCode)
    ensures
        r == scan_code(*e),
{
    match e {
        FsIndexerError::MftAccess { .. } => ErrorCode::MftAccessDenied,
        FsIndexerError::UnsupportedFs { .. } => ErrorCode::InvalidVolume,
        _ => ErrorCode::Internal,
    }
}

/// The error response for an indexer error under `code`, with its message.
pub fn error_response(code: ErrorCode, e: &FsIndexerError) -> (r: HelperResponse)
    ensures
        r is Error,
        r->code == code,
        r->message@ == error_message(*e),
{
    HelperResponse::Error { code, message: e.message() }
}

} // verus!
