[package]
name = "resolvent"
version = "0.1.0"
edition = "2021"
publish = false

[dependencies]
dashu = "0.4"
blake3 = "1"
num-traits = "0.2"
serde = { version = "1", features = ["derive"] }
serde_json = "1"
thiserror = "2"
