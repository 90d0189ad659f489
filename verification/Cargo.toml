[package]
name = "yazi_excludes"
version = "0.1.0"
edition = "2021"
publish = false

[dependencies]
globset = "0.4"
hashbrown = "0.15"
serde = { version = "1", features = ["derive"] }
toml = "0.8"
anyhow = "1"
