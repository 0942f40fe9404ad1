[package]
name = "rust-crawler"
version = "0.1.0"
edition = "2021"
publish = false

[dependencies]
url = "2"
scraper = "0.19"
encoding_rs = "0.8"
reqwest = { version = "0.12", default-features = false, features = ["rustls-tls"] }
tokio = { version = "1", features = ["full"] }
clap = { version = "4", features = ["derive"] }
serde = { version = "1", features = ["derive"] }
serde_json = "1"
thiserror = "1"
csv = "1.3"
rusqlite = { version = "0.32", features = ["bundled"] }
indicatif = "0.17"
tracing = "0.1"
tracing-subscriber = { version = "0.3", features = ["env-filter"] }
async-trait = "0.1"

[dev-dependencies]
tempfile = "3"
