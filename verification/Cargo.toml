[package]
name = "ble_chirp"
version = "0.1.0"
edition = "2021"
publish = false

[dependencies]
anyhow = "1"
btleplug = "0.11"
chacha20poly1305 = "0.10"
clap = { version = "4", features = ["derive"] }
crossterm = "0.28"
futures = "0.3"
hex = "0.4"
rand = "0.8"
ratatui = "0.29"
sha2 = "0.10"
tokio = { version = "1", features = ["macros", "rt-multi-thread", "time", "sync"] }
