[package]
name = "krates"
version = "0.16.10"
edition = "2021"
publish = false

[dependencies]
cargo_metadata = "0.18"
semver = "1"
cfg-expr = "0.15"
camino = "1"
petgraph = "0.6"
serde = { version = "1", features = ["derive"] }
serde_json = "1"
