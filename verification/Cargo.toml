[package]
name = "seglog"
version = "0.1.0"
edition = "2021"
publish = false

[dependencies]
chrono = "*"
tokio = { version = "*", features = ["sync", "rt"] }
async-trait = "*"

[dev-dependencies]
bincode = "1"
