[package]
name = "dedup"
version = "0.1.0"
edition = "2021"
publish = false

[dependencies]
blake3 = "1"
clap = { version = "4", features = ["derive"] }
colored = "2"
jwalk = "0.8"
rayon = "1"
serde = { version = "1", features = ["derive"] }
serde_json = "1"
