[package]
name = "marline"
version = "0.1.0"
edition = "2021"
publish = false

[dependencies]
rand = "=0.10.3"
sha2 = "=0.11.1"
chunkfs = { version = "=0.1.3", features = ["chunkers", "hashers"] }
csv = "=1.4.0"
zstd = "=0.14.3"
thiserror = "=2.0.21"
