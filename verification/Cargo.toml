[package]
name = "memory-search"
version = "0.1.0"
edition = "2021"
publish = false

[dependencies]
anyhow = "1"
blake3 = "1"
fastembed = { version = "5", default-features = false, features = ["ort-load-dynamic", "hf-hub-rustls-tls"] }
rmcp = { version = "*", features = ["server", "transport-io"] }
serde = { version = "1", features = ["derive"] }
serde_json = "1"
tokio = { version = "1", features = ["rt-multi-thread", "macros", "sync"] }
tracing = "0.1"
tracing-subscriber = { version = "0.3", features = ["env-filter"] }
