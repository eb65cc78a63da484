[package]
name = "jedit"
version = "0.1.0"
edition = "2021"
publish = false

[dependencies]
byte-unit = { version = "5", features = ["serde"] }
clap = { version = "4", features = ["derive"] }
crossterm = "0.28"
ratatui = "0.29"
serde = { version = "1", features = ["derive"] }
serde_json = { version = "1", features = ["preserve_order"] }
sonic-rs = "0.3"
thiserror = "2"
toml = "0.8"
