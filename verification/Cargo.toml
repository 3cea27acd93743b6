[package]
name = "hashit"
version = "0.1.0"
edition = "2021"
publish = false

[dependencies]
anyhow = "=1.0.104"
axum = "=0.7.9"
blake3 = "=1.8.7"
chrono = "=0.4.45"
clap = { version = "=4.6.7", features = ["derive"] }
console = "=0.15.11"
csv = "=1.4.0"
glob = "=0.3.4"
hex = "=0.4.3"
notify = "=6.1.1"
notify-debouncer-full = "=0.3.2"
prost = "=0.13.5"
rayon = "=1.12.0"
rusqlite = { version = "=0.31.0", features = ["bundled"] }
serde = { version = "=1.0.229", features = ["derive"] }
serde_json = "=1.0.154"
sha2 = "=0.10.9"
tokio = { version = "=1.54.1", features = ["full"] }
tokio-util = { version = "=0.7.20", features = ["io"] }
tonic = "=0.12.3"
tower-http = { version = "=0.5.2", features = ["cors"] }
uuid = { version = "=1.29.0", features = ["v4"] }
walkdir = "=2.5.0"
