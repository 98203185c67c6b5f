[package]
name = "toydb"
version = "0.1.0"
edition = "2021"
publish = false

[dependencies]
crc32fast = "1"
thiserror = "1"
serde = { version = "1", features = ["derive"] }
bincode = "1"
tokio = { version = "1", features = ["rt-multi-thread", "macros", "net", "io-util", "sync"] }
