[package]
name = "pagewise"
version = "0.1.0"
edition = "2021"
publish = false

[dependencies]
anyhow = "1"
arrow-array = "57"
async-trait = "0.1"
clap = { version = "4", features = ["derive"] }
cudarc = { version = "*", default-features = false, features = ["std", "driver", "cuda-12080", "dynamic-loading"] }
parquet = { version = "57", default-features = false, features = ["arrow", "snap", "zstd"] }
snap = "1"
tempfile = "3"
tracing = "0.1"
zstd = "0.13"

[dev-dependencies]
arrow-schema = "57"
