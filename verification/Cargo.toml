[package]
name = "bpe_lm"
version = "0.1.0"
edition = "2021"
publish = false

[dependencies]
burn = { version = "0.20", default-features = false, features = ["train", "cuda"] }
rand = "0.8"
serde = { version = "1", features = ["derive"] }
serde_json = "1"
