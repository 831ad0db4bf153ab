[package]
name = "vault76"
version = "0.1.0"
edition = "2021"
publish = false

[dependencies]
blake3 = "1"
dashmap = "*"
bincode = "1"
serde = { version = "1", features = ["derive"] }
clap = "4"
rand = "*"
rayon = "1"
spdlog-rs = "*"
