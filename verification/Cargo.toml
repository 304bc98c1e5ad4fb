[package]
name = "inference_bench"
version = "0.1.0"
edition = "2021"
publish = false

[dependencies]
anyhow = "1"
candle-core = "0.9"
candle-nn = "0.9"
candle-transformers = "0.9"
hf-hub = { version = "0.4", default-features = false, features = ["ureq", "rustls-tls"] }
ort = { version = "=2.0.0-rc.10", default-features = false, features = ["std", "load-dynamic"] }
serde = { version = "1", features = ["derive"] }
serde_json = "1"
tokenizers = "0.21"
