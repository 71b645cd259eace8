[package]
name = "bohay"
version = "0.1.0"
edition = "2021"
publish = false

[dependencies]
anyhow = "1"
ratatui = "*"
serde = { version = "1", features = ["derive"] }
serde_json = "1"
sha2 = "0.10"
unicode-width = "*"

[dev-dependencies]
toml = "*"
