[package]
name = "benostreamdb"
version = "0.1.0"
edition = "2021"
publish = false

[dependencies]
anyhow = "1"
apache-avro = "=0.17.0"
arrow = { version = "=57.3.2", default-features = false, features = ["ipc"] }
axum = "0.7"
bytes = "1"
bzip2 = "0.4"
chrono = "0.4"
clap = { version = "4", features = ["derive"] }
dirs = "5"
futures = "0.3"
libc = "0.2"
libloading = "0.8"
object_store = { version = "=0.12.5", default-features = false, features = ["fs"] }
parquet = { version = "=57.3.2", default-features = false, features = ["arrow", "brotli", "flate2-rust_backened", "lz4", "snap"] }
prometheus = { version = "0.13", default-features = false }
quick-xml = "0.31"
rand = "0.8"
regex = "=1.13.1"
roaring = "=0.10.12"
rustyline = "14"
serde = { version = "1", features = ["derive"] }
serde_json = "=1.0.154"
sha2 = "=0.10.9"
tokio = { version = "1", features = ["full"] }
toml = "0.8"
tower-http = { version = "0.6", features = ["trace"] }
tracing = "0.1"
url = "=2.5.8"
uuid = { version = "1", features = ["v4"] }
