[package]
name = "lsm_core"
version = "0.1.0"
edition = "2021"
publish = false

[dependencies]
ahash = "=0.8.12"
bytes = "=1.12.1"
crc32c = "=0.6.8"
crossbeam-skiplist = "=0.1.3"
snap = "=1.1.2"
zstd-safe = "=8.2.0"
memmap2 = "=0.9.12"
positioned-io = "=0.3.5"
libc = "=0.2.191"
rustix = { version = "=1.1.5", features = ["fs"] }
bumpalo = "*"
crossbeam = "*"
rand = "*"
