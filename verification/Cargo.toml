[package]
name = "rem"
version = "0.1.0"
edition = "2021"
publish = false

[dependencies]
serde = { version = "1", features = ["derive"] }
crossterm = "0.27"
ratatui = "0.26"
