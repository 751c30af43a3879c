[package]
name = "findbar"
version = "0.1.0"
edition = "2021"
publish = false

[dependencies]
shellexpand = "3"
anyhow = "1"
clap = { version = "4", features = ["derive"] }
clap_complete = "4"
colored = "2"
serde = { version = "1", features = ["derive"] }
serde_json = "1"
toml = "0.8"
core-foundation = "0.10"
core-foundation-sys = "0.8"
