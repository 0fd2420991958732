[package]
name = "kjdb"
version = "0.1.0"
edition = "2021"
publish = false

[dependencies]
tokio = { version = "1", features = ["fs", "io-util", "sync", "rt", "rt-multi-thread", "macros"] }
serde = { version = "1", features = ["derive"] }
serde_json = "1"
fs4 = { version = "*", features = ["tokio"] }
futures-util = "0.3"
async-stream = "0.3"
thiserror = "*"
