[package]
name = "s3kv"
version = "0.1.0"
edition = "2021"
publish = false

[dependencies]
anyhow = "1"
aws-config = "1"
aws-sdk-s3 = "1"
clap = { version = "4", features = ["derive"] }
hdrhistogram = "7"
hex = "=0.4.3"
integer-encoding = "=4.1.0"
lru = "=0.19.0"
rand = { version = "0.8", features = ["small_rng"] }
ring = "0.17"
rocksdb = "0.22"
serde_json = "1"
tempfile = "3"
tokio = { version = "1", features = ["full"] }
tracing = "0.1"
tracing-subscriber = "0.3"
zstd = "=0.14.3"
