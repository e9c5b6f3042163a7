[package]
name = "rust_bot"
version = "0.1.0"
edition = "2021"
publish = false

[dependencies]
anyhow = "1"
async-trait = "0.1"
chrono = "0.4"
dashmap = "6"
rust_decimal = "1"
serde = { version = "1", features = ["derive"] }
serde_json = "1"
toml = "0.8"
zstd = "0.13"
