[package]
name = "hyprdrive"
version = "0.1.0"
edition = "2021"
publish = false

[dependencies]
blake3 = "=1.8.7"
nix = { version = "=0.31.3", features = ["fs"] }
strsim = "=0.11.1"
image = { version = "=0.25.10", default-features = false, features = ["png", "jpeg", "gif", "webp", "bmp", "tiff"] }
image_hasher = "=3.1.1"
rayon = "=1.12.0"
memmap2 = "=0.9.12"
libc = "=0.2.191"
serde = { version = "=1.0.229", features = ["derive"] }
rmp-serde = "=1.3.1"
chrono = "=0.4.45"
jwalk = "=0.9.0"
inotify = "=0.11.5"
tokio = { version = "=1.54.1", features = ["rt", "rt-multi-thread", "sync", "time", "macros"] }
tokio-util = "=0.7.20"
thiserror = "=2.0.21"

[dev-dependencies]
serde_json = "=1.0.154"
