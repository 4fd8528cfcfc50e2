[package]
name = "gadv"
version = "0.0.1"
edition = "2021"
publish = false

[dependencies]
gix = "*"
rayon = "*"
serde = { version = "*", features = ["derive"] }
serde_json = "*"
thiserror = "*"
dirs = "*"
crossterm = "*"
ratatui = "*"
