[package]
name = "pager"
version = "0.1.0"
edition = "2021"
publish = false

[dependencies]
clap = { version = "4", features = ["derive"] }
crossterm = "*"
regex = "1"
rustix = { version = "1", features = ["termios"] }
rustix-openpty = "0.2"
serde = { version = "1", features = ["derive"] }
toml = "0.8"
