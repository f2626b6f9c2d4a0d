[package]
name = "bpfs"
version = "0.1.0"
edition = "2021"
publish = false

[dependencies]
sha2 = "0.10"
brotli = "8"
ed25519-dalek = "2"
filetime = "0.2"
rayon = "1"
clap = { version = "4", features = ["derive"] }
thiserror = "2"
anyhow = "1"
serde = { version = "1", features = ["derive"] }
