[package]
name = "vexfs"
version = "0.1.0"
edition = "2021"
publish = false

[dependencies]
crc32fast = "=1.5.4"
blake3 = "=1.8.7"
zstd = "=0.13.4"
thiserror = "=1.0.69"
fuser = { version = "0.14", default-features = false }
libc = "0.2"
