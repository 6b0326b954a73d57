[package]
name = "server_tools"
version = "0.1.0"
edition = "2021"
publish = false

[dependencies]
anyhow = "1"
bollard = "0.19"
clap = { version = "4", features = ["derive", "env"] }
crossterm = "0.28"
dirs = "6"
ratatui = "0.29"
serde = { version = "1", features = ["derive"] }
sysinfo = "0.33"
tokio = { version = "1", features = ["rt-multi-thread"] }
toml = "0.8"
tracing-subscriber = { version = "0.3", features = ["env-filter"] }
