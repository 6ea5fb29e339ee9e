[package]
name = "tig_algorithms"
version = "0.1.0"
edition = "2021"
publish = false

[dependencies]
anyhow = "1"
rand = { version = "0.8", features = ["small_rng"] }
serde = { version = "1", features = ["derive"] }
serde_json = "1"
splr = "0.17"
cudarc = "0.16"
