[package]
name = "replicated_log"
version = "0.1.0"
edition = "2021"
publish = false

[dependencies]
async-trait = "0.1"
maelstrom-node = "0.1"
rand = "0.8"
serde = { version = "1", features = ["derive"] }
serde_with = "3"
tokio = { version = "1", features = ["rt", "time"] }
tokio-context = "0.1"
