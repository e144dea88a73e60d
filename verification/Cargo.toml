[package]
name = "car"
version = "0.1.0"
edition = "2021"
publish = false

[dependencies]
anyhow = "=1.0.104"
lang-c = "=0.15.1"
petgraph = "=0.8.3"
proc-macro2 = { version = "=1.0.107", features = ["span-locations"] }
quote = "=1.0.47"
sha1 = "=0.10.7"
syn = { version = "=2.0.119", features = ["full", "extra-traits", "visit-mut"] }
