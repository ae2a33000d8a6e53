[package]
name = "mimisbrunnr"
version = "0.1.0"
edition = "2021"
publish = false

[dependencies]
roaring = "*"
petgraph = "*"
ciborium = "0.2"
serde = { version = "1", features = ["derive"] }
toml = "0.8"
thiserror = "2"
log = "0.4"
