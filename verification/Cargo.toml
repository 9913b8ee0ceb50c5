[package]
name = "nft_ledger"
version = "0.1.0"
edition = "2021"
publish = false

[dependencies]
sha2 = "0.10"
chrono = { version = "0.4", default-features = false, features = ["clock"] }
serde = { version = "1", features = ["derive"] }
serde_json = "1"
hyper = { version = "0.14", features = ["full"] }
tokio = { version = "1", features = ["full"] }
text_io = "0.1"
