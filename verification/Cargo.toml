[package]
name = "cleard"
version = "0.1.0"
edition = "2021"
publish = false

[dependencies]
anyhow = "1"
clap = { version = "4", features = ["derive"] }
crossbeam-channel = "0.5"
dirs = "5"
humansize = "2"
jwalk = "0.8"
ratatui = "0.29"
serde = { version = "1", features = ["derive"] }
toml = "0.8"
