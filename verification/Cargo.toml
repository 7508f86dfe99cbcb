[package]
name = "loam-build"
version = "0.1.0"
edition = "2021"
publish = false

[dependencies]
cargo_metadata = "0.18"
serde_json = "1"
thiserror = "1"
topological-sort = "0.2"
