# hyprdrive

The core of a filesystem indexer and duplicate finder, written in Verus: each
function of the library states its behaviour in `requires` / `ensures`
contracts, and Verus proves the code against them.

## Layout

- `src/` — the verified library.
  - `dedup/` — duplicate detection: grouping matches with a union-find,
    choosing each group's reference file, bucketing by size and hash,
    duplicate folders by Merkle hash, filename normalization and the
    extension groups of the fuzzy-name search, reflink bookkeeping.
  - `indexer/` — filesystem indexing: mount parsing and filesystem
    detection, inotify event planning, parent-chain path reconstruction,
    scan priorities, NTFS/USN bookkeeping for Windows volumes.
  - `hashing.rs` — content digests (whole, head, streamed) and the hashing
    policy; `dedup/perceptual.rs` — image candidates, perceptual hashes and
    Hamming-distance matching.
  - `pipeline/` — the object pipeline: processing order, MIME detection,
    batch hashing plans, dispatching batched changes against the fid map.
  - `disk/` — disk-usage helpers (size bubbling, build-artifact patterns).
  - `ipc.rs` — the helper's length-prefixed message framing and request
    handling decisions.
  - `text.rs`, `path.rs` — the string and path model the contracts use.
- `tests/` — tests of the library on concrete values.
- `app/` — the code around the library: file and network I/O, the inotify
  and tokio plumbing, serde wire types, the fuzzy-name similarity scores and
  treemap layout (both floating point).

## Trust

Outside calls go through a few trusted wrappers, each documented where it is
declared: `blake3::hash` and `blake3::Hasher`, the image decoder and
perceptual hasher of `image` / `image_hasher`, `str::to_lowercase`,
`String::from_utf8_lossy`, the default hasher on paths, `nix::sys::statfs`,
`Duration::from_millis`, and contracts on `String::push`, `char::from_u32` and
`Duration::clone`.
