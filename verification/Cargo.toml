[package]
name = "edge_steer"
version = "0.1.0"
edition = "2021"
publish = false

[dependencies]
rand = "0.8"
reqwest = { version = "0.12", default-features = false }
tokio = { version = "1", features = ["sync", "time"] }
