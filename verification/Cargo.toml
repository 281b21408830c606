[package]
name = "gcm_trace"
version = "0.1.0"
edition = "2021"
publish = false

[dependencies]
ahash = "0.8"
fixedbitset = "0.4"
roaring = "0.10"
petgraph = "0.6"
ndarray = "0.15"
rand = { version = "0.8", features = ["small_rng"] }
anyhow = "1"
clap = { version = "3.2", features = ["derive"] }
crossbeam = "0.8"
parking_lot = "0.12"
rayon = "1"
seq_io = "0.3"
serde = { version = "1", features = ["derive"] }
serde_json = "1"
tokio = { version = "1", features = ["rt-multi-thread", "macros", "sync"] }
futures = "0.3"
tracing = "0.1"
tracing-subscriber = "0.3"
ordered-float = "3"
itertools = "0.10"
