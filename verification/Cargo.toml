[package]
name = "arrow-kanban"
version = "0.1.0"
edition = "2021"
publish = false

[dependencies]
arrow = { version = "=57.3.2", default-features = false }
parquet = { version = "=57.3.2", default-features = false, features = ["arrow", "snap"] }
chrono = { version = "=0.4.45", default-features = false, features = ["clock", "std"] }
uuid = { version = "=1.29.0", features = ["v4"] }
serde = { version = "=1.0.229", features = ["derive"] }
serde_json = "=1.0.154"
thiserror = "=2.0.21"
clap = { version = "=4.6.7", default-features = false, features = ["derive", "std", "help", "usage"] }
candle-core = "=0.11.1"
candle-nn = "=0.11.1"
candle-transformers = "=0.11.1"
hf-hub = { version = "=0.5.0", default-features = false, features = ["ureq"] }
tokenizers = { version = "=0.23.2", default-features = false, features = ["onig"] }
fastembed = { version = "=7.5.0", default-features = false, features = ["hf-hub", "ort-load-dynamic"] }
