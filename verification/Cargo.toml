[package]
name = "hmm_utils"
version = "0.1.0"
edition = "2021"
publish = false

[dependencies]
dirs = "*"
glob = "*"
serde = { version = "1", features = ["derive"] }
