use hyprdrive::hashing::{content_digest, head_digest, mid_digest, partial_digest, StreamHasher};

fn streamed(content: &[u8], chunk: usize) -> [u8; 32] {
    let mut h = StreamHasher::new();
    for c in content.chunks(chunk) {
        h.update(c);
    }
    h.finalize()
}

#[test]
fn partial_hash_deterministic() {
    assert_eq!(partial_digest(b"hello world"), partial_digest(b"hello world"));
}

#[test]
fn full_hash_deterministic() {
    assert_eq!(streamed(b"hello world", 4), streamed(b"hello world", 4));
}

#[test]
fn identical_files_same_hash() {
    assert_eq!(content_digest(b"identical content"), content_digest(b"identical content"));
}

#[test]
fn different_files_different_hash() {
    assert_ne!(content_digest(b"content A"), content_digest(b"content B"));
}

#[test]
fn partial_hash_identical_files() {
    assert_eq!(partial_digest(b"same partial content"), partial_digest(b"same partial content"));
}

#[test]
fn empty_file_hashes_consistently() {
    assert_eq!(partial_digest(b""), partial_digest(b""));
    assert_eq!(streamed(b"", 8), content_digest(b""));
    assert_eq!(content_digest(b""), *blake3::hash(b"").as_bytes());
}

#[test]
fn small_file_partial_hash() {
    assert_ne!(partial_digest(b"tiny"), [0u8; 32]);
}

#[test]
fn mmap_hash_matches_streaming() {
    let content = vec![42u8; 1024];
    assert_eq!(streamed(&content, 64), content_digest(&content));
}

#[test]
fn mid_hash_deterministic() {
    assert_eq!(mid_digest(b"mid hash content"), mid_digest(b"mid hash content"));
}

#[test]
fn mid_hash_identical_files() {
    assert_eq!(mid_digest(b"same mid hash content"), mid_digest(b"same mid hash content"));
}

#[test]
fn mid_hash_different_files() {
    assert_ne!(mid_digest(b"content A for mid"), mid_digest(b"content B for mid"));
}

#[test]
fn small_file_mid_hash_matches_full_hash_of_same_data() {
    let content = vec![0xAB; 512];
    assert_eq!(mid_digest(&content), *blake3::hash(&content).as_bytes());
}

#[test]
fn digests_are_blake3_of_the_head() {
    let content: Vec<u8> = (0..5000u32).map(|i| (i % 251) as u8).collect();
    assert_eq!(content_digest(&content), *blake3::hash(&content).as_bytes());
    assert_eq!(partial_digest(&content), *blake3::hash(&content[..4096]).as_bytes());
    assert_eq!(head_digest(&content, 10), *blake3::hash(&content[..10]).as_bytes());
    assert_eq!(head_digest(&content, 9999), *blake3::hash(&content).as_bytes());
    // Streaming in chunks equals hashing the whole.
    assert_eq!(streamed(&content, 777), *blake3::hash(&content).as_bytes());
}
