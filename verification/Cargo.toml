[package]
name = "pipedb"
version = "0.1.0"
edition = "2021"
publish = false

[dependencies]
anyhow = "1"
bincode = "1"
serde = { version = "1", features = ["derive"] }

[dev-dependencies]
tempfile = "3"
