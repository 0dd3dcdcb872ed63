[package]
name = "wt"
version = "0.5.0"
edition = "2021"
publish = false

[dependencies]
anyhow = "1"
clap = { version = "4", features = ["derive"] }
clap_complete = { version = "4", features = ["unstable-dynamic"] }
ratatui = "0.29"
serde = { version = "1", features = ["derive"] }
toml = "0.8"
skim = "*"
