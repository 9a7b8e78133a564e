[package]
name = "arches"
version = "0.1.0"
edition = "2021"
publish = false

[dependencies]
anyhow = "1"
axum = "*"
clap = { version = "4", features = ["derive"] }
flate2 = "1"
jiff = "*"
quick-xml = "*"
rusqlite = { version = "*", features = ["bundled"] }
rusqlite_migration = "*"
rust-embed = "8"
rust_iso3166 = "*"
serde = { version = "1", features = ["derive"] }
serde_json = "1"
tokio = { version = "1", features = ["full"] }
tower-http = { version = "*", features = ["cors", "compression-gzip"] }
tracing = "0.1"
tracing-subscriber = "0.3"
tzf-rs = "*"
