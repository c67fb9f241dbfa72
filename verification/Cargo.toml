[package]
name = "sgl_kv_indexer"
version = "0.1.0"
edition = "2021"
publish = false

[dependencies]
redis = { version = "*", default-features = false, features = ["script"] }
tokio = { version = "1", features = ["macros", "rt-multi-thread", "time", "net", "signal"] }
tonic = "0.14"
tracing = "0.1"
tracing-subscriber = { version = "0.3", features = ["env-filter"] }
