[package]
name = "leaky_bucket"
version = "0.1.0"
edition = "2021"
publish = false

[dependencies]
sha2 = "0.10"
chrono = "0.4"
redis = "*"
axum = "*"
tokio = { version = "1", features = ["macros", "rt-multi-thread", "net", "sync", "time"] }

[dev-dependencies]
serde_json = "1"
