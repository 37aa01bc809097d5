[package]
name = "diff_crawler"
version = "0.1.0"
edition = "2021"
publish = false

[dependencies]
sha2 = "=0.10.9"
similar = "=2.7.0"
csv = "=1.4.0"
serde_json = "=1.0.154"
serde = { version = "=1.0.229", features = ["derive"] }
parquet = { version = "=60.1.0", default-features = false }
bytes = "=1.12.1"
ignore = "=0.4.34"
clap = { version = "=4.6.7", features = ["derive"] }
rayon = "=1.12.0"
anyhow = "=1.0.104"
thiserror = "=1.0.69"
tracing-subscriber = { version = "=0.3.23", features = ["env-filter"] }
