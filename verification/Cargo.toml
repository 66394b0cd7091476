[package]
name = "invite_ledger"
version = "0.1.0"
edition = "2021"
publish = false

[dependencies]
rocksdb = { version = "=0.25.0", default-features = false }
rand = "=0.10.3"
axum = "=0.8.9"
axum_csrf = { version = "=0.11.0", features = ["layer"] }
clap = { version = "=4.6.7", features = ["derive", "env"] }
dotenvy = "=0.15.7"
reqwest = { version = "=0.13.5", default-features = false, features = ["json"] }
serde = { version = "=1.0.229", features = ["derive"] }
serde_json = "=1.0.151"
tokio = { version = "=1.53.2", features = ["rt-multi-thread", "macros", "net", "sync"] }
