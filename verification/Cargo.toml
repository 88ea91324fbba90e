[package]
name = "aw-work-sync"
version = "0.1.0"
edition = "2021"
publish = false

[dependencies]
anyhow = "1"
async-trait = "0.1"
aw-models = "=0.1.0"
chrono = { version = "=0.4.45", features = ["serde"] }
dirs = "*"
jsonwebtoken = { version = "=9.3.1", features = ["use_pem"] }
log = "0.4"
reqwest = { version = "0.12", default-features = false, features = ["json", "rustls-tls"] }
serde = { version = "1", features = ["derive"] }
serde_json = { version = "=1.0.154", features = ["raw_value"] }
serde_yaml = "0.9"
tokio = { version = "1", features = ["rt-multi-thread", "macros", "sync", "time"] }
umya-spreadsheet = "=2.3.3"
urlencoding = "=2.1.3"
