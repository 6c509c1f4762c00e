[package]
name = "fswhy"
version = "0.1.0"
edition = "2021"
publish = false

[dependencies]
anyhow = "1"
crossterm = "*"
serde = { version = "1", features = ["derive"] }
toml = "*"
