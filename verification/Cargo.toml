[package]
name = "glyphhunt"
version = "0.1.0"
edition = "2021"
publish = false

[dependencies]
strsim = "0.11"
serde = { version = "1", features = ["derive"] }
serde_json = "1"
anyhow = "1"
chrono = "0.4"
clap = { version = "4", features = ["derive"] }
crossterm = "0.28"
ratatui = "0.29"
libc = "0.2"
sysinfo = "*"
tokio = { version = "1", features = ["full"] }
