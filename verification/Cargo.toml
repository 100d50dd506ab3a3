[package]
name = "grepgrep"
version = "0.1.0"
edition = "2021"
publish = false

[dependencies]
anyhow = "1"
clap = { version = "4", features = ["derive"] }
cpal = "0.15"
egui = "0.28"
parking_lot = "0.12"
realfft = "3"
serde = { version = "1", features = ["derive"] }
serde_json = "1"
symphonia = { version = "0.5", features = ["mp3", "aac", "isomp4"] }
tempfile = "3"
tracing = "0.1"
tracing-subscriber = "0.3"
zip = { version = "0.6", default-features = false, features = ["deflate"] }
