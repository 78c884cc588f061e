[package]
name = "track"
version = "0.1.0"
edition = "2021"
publish = false

[dependencies]
chrono = "*"
clap = { version = "*", features = ["derive"] }
error-stack = "*"
fs2 = "*"
thiserror = "*"

[dev-dependencies]
serde_json = "*"
