[package]
name = "badtv"
version = "0.1.0"
edition = "2021"
publish = false

[dependencies]
anyhow = "=1.0.104"
clap = { version = "=4.6.7", features = ["derive"] }
crossterm = "=0.28.1"
dirs = "=5.0.1"
futures = "=0.3.34"
hound = "=3.5.1"
pitch_shift = "=1.0.0"
ratatui = "=0.29.0"
reqwest = { version = "=0.12.28", default-features = false, features = ["rustls-tls"] }
rubato = "=0.15.0"
serde = { version = "=1.0.229", features = ["derive"] }
serde_json = "=1.0.154"
tempfile = "=3.27.0"
tokio = { version = "=1.54.1", features = ["macros", "rt-multi-thread", "time"] }
urlencoding = "=2.1.3"
whisper-rs = "=0.16.0"
whisper-rs-sys = "=0.15.0"
