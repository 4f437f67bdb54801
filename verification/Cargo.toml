[package]
name = "densezip"
version = "0.1.4"
edition = "2021"
publish = false

[dependencies]
anyhow = "=1.0.104"
brotli = { version = "=9.1.1", features = ["portable-float"] }
clap = { version = "=4.6.7", features = ["derive"] }
crc32fast = "=1.5.4"
lepton_jpeg = "=0.5.8"
lzma-rust2 = "=0.25.0"
preflate-rs = "=0.7.6"
rayon = "=1.12.0"
xxhash-rust = { version = "=0.8.19", features = ["xxh3"] }
zstd = "=0.14.3"

[dev-dependencies]
flate2 = "=1.1.10"
