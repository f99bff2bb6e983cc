[package]
name = "turbo_rag"
version = "0.1.1"
edition = "2021"
publish = false

[dependencies]
anyhow = "1"
arrow-array = "=57.3.2"
arrow-schema = "=57.3.2"
async-trait = "0.1"
bytes = "=1.12.1"
clap = { version = "4", features = ["derive"] }
config = { version = "0.15", default-features = false, features = ["toml"] }
dotenvy = "0.15"
fastembed = { version = "=5.17.4", default-features = false, features = ["hf-hub-rustls-tls", "ort-load-dynamic"] }
futures = "0.3"
indicatif = "0.17"
metrics = "0.24"
metrics-exporter-prometheus = { version = "0.18", default-features = false, features = ["http-listener"] }
object_store = { version = "0.12", features = ["aws"] }
rand = { version = "0.8", features = ["small_rng"] }
rayon = "1"
reqwest = { version = "0.12", default-features = false, features = ["json"] }
serde = { version = "1", features = ["derive"] }
serde_json = "=1.0.154"
tempfile = "3"
thiserror = "2"
tokio = { version = "1", features = ["full"] }
tracing = "0.1"
tracing-subscriber = { version = "0.3", features = ["env-filter"] }
turbovec = "=1.1.2"
