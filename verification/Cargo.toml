[package]
name = "mog"
version = "0.1.0"
edition = "2021"
publish = false

[dependencies]
anyhow = "1"
blake3 = { version = "1", default-features = false, features = ["std", "pure"] }
clap = { version = "4", features = ["derive"] }
hex = "0.4"
imara-diff = "*"
libc = "0.2"
memmap2 = "0.9"
rayon = "1"
regex = "1"
walkdir = "2"
xxhash-rust = { version = "0.8", features = ["xxh3"] }
