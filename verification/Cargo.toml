[package]
name = "bff"
version = "0.1.0"
edition = "2021"
publish = false

[dependencies]
ahash = "0.8"
unicode-segmentation = "1"
byteorder = "1"
rand = "0.8"
regex = "1"
ngrams = "*"
anyhow = "1"
clap = { version = "4", features = ["derive"] }
serde = { version = "1", features = ["derive"] }
serde_json = "1"
flate2 = "1"
zstd = "*"
glob = "0.3"
sysinfo = "*"
human_bytes = "*"
indicatif = "*"
threadpool = "1"
chrono = "0.4"
tokio = { version = "1", features = ["full"] }
redis = "*"
oss-rust-sdk = "*"
once_cell = "1"
counter = "*"
vtext = "*"
indexmap = { version = "2", features = ["serde"] }
