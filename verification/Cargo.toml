[package]
name = "albumsync"
version = "0.1.0"
edition = "2021"
publish = false

[dependencies]
glob = "=0.3.4"
suppaftp = { version = "=8.0.5", features = ["tokio"] }
serde = { version = "=1.0.229", features = ["derive"] }
serde_json = "=1.0.154"
thiserror = "=2.0.21"
tokio = { version = "=1.54.1", features = ["full"] }
tokio-util = "=0.7.20"
tracing = "=0.1.44"
tracing-subscriber = { version = "=0.3.23", features = ["env-filter"] }
keyring = "=4.2.0"
sqlx = { version = "=0.8.6", default-features = false, features = ["sqlite", "runtime-tokio", "migrate"] }
