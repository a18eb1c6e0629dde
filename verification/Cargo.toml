[package]
name = "devtriage"
version = "0.1.0"
edition = "2021"
publish = false

[dependencies]
blake3 = "1"
regex = "1"
serde = { version = "1", features = ["derive"] }
serde_json = "1"
thiserror = "2"
anyhow = "1"
clap = { version = "4", features = ["derive"] }
