[package]
name = "phos"
version = "0.1.0"
edition = "2021"
publish = false

[dependencies]
chrono = "0.4"
clap = { version = "4", features = ["derive"] }
colored = "2"
dirs = "5"
glob = "0.3"
serde = { version = "1", features = ["derive"] }
serde_json = "1"
terminal_size = "0.3"
toml = "0.8"
