[package]
name = "doneit"
version = "0.1.0"
edition = "2021"
publish = false

[dependencies]
uuid = { version = "1", features = ["v4"] }
serde = { version = "1", features = ["derive"] }
serde_json = "1"
serde_yaml = "0.9"
directories = "6"
ratatui = "0.29"
crossterm = "0.28"
color-eyre = "0.6"
