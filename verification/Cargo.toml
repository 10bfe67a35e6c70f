[package]
name = "differential"
version = "0.1.0"
edition = "2021"
publish = false

[dependencies]
anyhow = "1"
arboard = { version = "3", default-features = false }
clap = { version = "4", features = ["derive"] }
crossterm = "0.28"
etcetera = "0.8"
globset = "0.4"
hex = "0.4"
memchr = "2"
ratatui = "0.29"
regex = "1"
serde = { version = "1", features = ["derive"] }
serde_json = "1"
sha1 = "0.10"
tempfile = "3"
thiserror = "1"
toml = "0.8"
tui-textarea = "0.7"
