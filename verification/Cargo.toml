[package]
name = "a3s-apofasi"
version = "0.1.2"
edition = "2021"
publish = false

[dependencies]
serde = { version = "1", features = ["derive"] }
serde_json = { version = "1", features = ["preserve_order"] }
indexmap = { version = "2", features = ["serde"] }
thiserror = "2"
candle-core = "*"
candle-nn = "*"
tokenizers = "*"
