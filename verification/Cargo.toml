[package]
name = "chak"
version = "0.1.0"
edition = "2021"
publish = false

[dependencies]
sha2 = "0.10"
glob = "0.3"
serde = { version = "1", features = ["derive"] }
serde_json = "1"
toml = "0.8"
clap = "3"
