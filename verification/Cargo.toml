[package]
name = "steam_saves"
version = "0.1.0"
edition = "2021"
publish = false

[dependencies]
anyhow = "1"
dirs = "*"
once_cell = "1"
serde = { version = "1", features = ["derive"] }
serde_yaml = "0.9"
steamy-vdf = "*"
winreg = "*"
