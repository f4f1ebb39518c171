[package]
name = "wl"
version = "0.1.0"
edition = "2021"
publish = false

[dependencies]
chrono = "0.4"
clap = { version = "4", features = ["derive"] }
dirs = "*"
fuzzy-matcher = "0.3"
rusqlite = "*"
serde = { version = "1", features = ["derive"] }
serde_json = "1"
sha2 = "0.10"
terminal_size = "*"
thiserror = "*"
toml = "*"
walkdir = "2"
