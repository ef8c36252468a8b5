[package]
name = "quack_protocol"
version = "0.3.0"
edition = "2021"
publish = false

[dependencies]
async-stream = "0.3"
futures-util = "0.3"
indexmap = "2"
reqwest = { version = "0.12", default-features = false }
thiserror = "2"
tokio = { version = "1", features = ["rt", "sync", "time"] }
tracing = "0.1"
url = "2"
