[package]
name = "nextar"
version = "0.1.0"
edition = "2021"
publish = false

[dependencies]
crc32fast = "1"
reed-solomon-erasure = "6"
argon2 = "0.5"
chacha20poly1305 = "0.10"
sha2 = "0.10"
zstd = "0.13"
xz2 = "0.1"
rand = "0.8"
anyhow = "1"
clap = { version = "4", features = ["derive"] }
serde = { version = "1", features = ["derive"] }
serde_json = "1"
walkdir = "2"
num_cpus = "1"
crossbeam-channel = "0.5"
