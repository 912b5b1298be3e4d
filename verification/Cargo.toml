[package]
name = "stract"
version = "0.1.0"
edition = "2021"
publish = false

[dependencies]
axum = "=0.6.20"
bincode = "=1.3.3"
lru = { version = "=0.11.1", default-features = false }
md5 = "=0.7.0"
memmap = "=0.7.0"
rand = "=0.8.8"
reqwest = { version = "=0.11.27", default-features = false }
rocksdb = { version = "=0.21.0", default-features = false }
serde = { version = "1.0", features = ["derive"] }
url = "=2.5.8"
