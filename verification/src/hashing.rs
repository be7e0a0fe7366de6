//! Progressive content hashing policy and the BLAKE3 digest.

use vstd::prelude::*;

verus! {

/// Size of the partial-hash read (4 KiB).
pub const PARTIAL_HASH_SIZE: usize = 4096;

/// Size of the mid-hash read (1 MiB).
pub const MID_HASH_SIZE: u64 = 1048576;

/// Minimum file size for which the mid-hash stage pays off (2 MiB).
pub const MID_HASH_MIN_FILE_SIZE: u64 = 2097152;

/// Returns `true` if the file is large enough for the mid-hash stage to help.
pub fn should_mid_hash(file_size: u64) -> (r: bool)
    ensures
        r == (file_size >= MID_HASH_MIN_FILE_SIZE),
{
    file_size >= MID_HASH_MIN_FILE_SIZE
}

/// BLAKE3 digest of a byte string.
pub uninterp spec fn blake3_digest(data: Seq<u8>) -> Seq<u8>;

/// Calls `blake3::hash`: the 32-byte BLAKE3 digest of `data`, named
/// `blake3_digest`. (Hashing the concatenation of several inputs equals
/// feeding them in turn to `blake3::Hasher`.)
#[verifier::external_body]
pub(crate) fn blake3_hash(data: &[u8]) -> (r: [u8; 32])
    ensures
        r@ == blake3_digest(data@),
{
    *blake3::hash(data).as_bytes()
}


/// The BLAKE3 digest of a file's whole content: its object id.
pub fn content_digest(content: &[u8]) -> (r: [u8; 32])
    ensures
        r@ == blake3_digest(content@),
{
    blake3_hash(content)
}

/// The part of `content` that a digest of at most `limit` bytes covers.
pub open spec fn head(content: Seq<u8>, limit: int) -> Seq<u8> {
    if content.len() <= limit {
        content
    } else {
        content.take(limit)
    }
}

/// The BLAKE3 digest of the first `limit` bytes of `content` (all of it
/// when shorter).
pub fn head_digest(content: &[u8], limit: usize) -> (r: [u8; 32])
    ensures
        r@ == blake3_digest(head(content@, limit as int)),
{
    if content.len() <= limit {
        blake3_hash(content)
    } else {
        let part = vstd::slice::slice_subrange(content, 0, limit);
        assert(part@ =~= content@.take(limit as int));
        blake3_hash(part)
    }
}

/// The partial hash: the digest of the first 4 KiB read from a file.
pub fn partial_digest(read: &[u8]) -> (r: [u8; 32])
    ensures
        r@ == blake3_digest(head(read@, PARTIAL_HASH_SIZE as int)),
{
    head_digest(read, PARTIAL_HASH_SIZE)
}

/// The mid hash: the digest of the first 1 MiB read from a file.
pub fn mid_digest(read: &[u8]) -> (r: [u8; 32])
    ensures
        r@ == blake3_digest(head(read@, MID_HASH_SIZE as int)),
{
    head_digest(read, 1048576)
}

#[verifier::external_type_specification]
#[verifier::external_body]
pub struct ExBlake3Hasher(blake3::Hasher);

/// BLAKE3 over content fed in chunks: its digest is that of all the bytes
/// fed so far, in order.
pub struct StreamHasher {
    hasher: blake3::Hasher,
    fed: Ghost<Seq<u8>>,
}

/// Calls `blake3::Hasher::new`: a hasher that has been fed nothing.
#[verifier::external_body]
fn fresh_hasher() -> (r: StreamHasher)
    ensures
        r.fed@ == Seq::<u8>::empty(),
{
    StreamHasher { hasher: blake3::Hasher::new(), fed: Ghost(Seq::empty()) }
}

/// Calls `blake3::Hasher::update`: `data` is fed after what came before
/// (the crate documents that feeding chunks in turn equals hashing their
/// concatenation).
#[verifier::external_body]
fn feed_hasher(h: &mut StreamHasher, data: &[u8])
    ensures
        final(h).fed@ == old(h).fed@ + data@,
{
    h.hasher.update(data);
}

/// Calls `blake3::Hasher::finalize`: the digest of all bytes fed.
#[verifier::external_body]
fn finish_hasher(h: &StreamHasher) -> (r: [u8; 32])
    ensures
        r@ == blake3_digest(h.fed@),
{
    *h.hasher.finalize().as_bytes()
}

impl StreamHasher {
    /// The bytes fed so far.
    pub closed spec fn bytes(&self) -> Seq<u8> {
        self.fed@
    }

    /// A hasher fed nothing yet.
    pub fn new() -> (r: Self)
        ensures
            r.bytes() == Seq::<u8>::empty(),
    {
        fresh_hasher()
    }

    /// Feed the next chunk.
    pub fn update(&mut self, data: &[u8])
        ensures
            final(self).bytes() == old(self).bytes() + data@,
    {
        feed_hasher(self, data)
    }

    /// The digest of everything fed, in order.
    pub fn finalize(&self) -> (r: [u8; 32])
        ensures
            r@ == blake3_digest(self.bytes()),
    {
        finish_hasher(self)
    }
}

} // verus!
