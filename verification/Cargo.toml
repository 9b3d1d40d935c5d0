[package]
name = "nomi"
version = "0.1.0"
edition = "2021"
publish = false

[dependencies]
regex = "=1.13.1"
once_cell = "=1.21.4"
serde = { version = "=1.0.229", features = ["derive"] }
serde_json = "=1.0.154"
rand = "=0.8.8"
tokio = { version = "=1.54.1", features = ["process", "fs", "io-util", "time", "rt"] }
reqwest = { version = "=0.12.28", default-features = false, features = ["json"] }
candle-core = "=0.8.4"
candle-nn = "=0.8.4"
candle-transformers = "=0.8.4"
tokenizers = { version = "=0.20.4", default-features = false, features = ["unstable_wasm"] }
