[package]
name = "probing_rl"
version = "0.1.0"
edition = "2021"
publish = false

[dependencies]
serde = { version = "1", features = ["derive"] }
serde_json = "1"
urlencoding = "2"
anyhow = "1"
chrono = "0.4"
log = "0.4"
tokio = { version = "1", features = ["net", "rt"] }
hyper = { version = "1", features = ["client", "http1"] }
hyper-util = { version = "0.1", features = ["tokio"] }
http-body-util = "0.1"
reqwest = { version = "0.12", default-features = false }
axum = { version = "0.7", default-features = false, features = ["query", "tokio", "http1"] }
