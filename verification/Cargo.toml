[package]
name = "stryke_terminal"
version = "0.1.0"
edition = "2021"
publish = false

[dependencies]
anyhow = "=1.0.104"
base64 = "=0.22.1"
once_cell = "=1.21.4"
serde = { version = "=1.0.229", features = ["derive"] }
serde_json = "=1.0.154"
unicode-normalization = "=0.1.26"
unicode-width = "=0.2.3"

[dev-dependencies]
serde_json = "=1.0.154"
