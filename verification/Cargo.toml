[package]
name = "breezydb"
version = "0.1.0"
edition = "2021"
publish = false

[dependencies]
crc32c = "0.6"
serde_json = "1"
libc = "0.2"
rand = "0.9"
tokio = { version = "1", features = ["macros", "rt-multi-thread", "net", "sync"] }
axum = "0.8"
