[package]
name = "jou"
version = "0.1.0"
edition = "2021"
publish = false

[dependencies]
age = "=0.12.1"
chrono = "=0.4.45"
home = "=0.5.12"
clap = { version = "=4.6.7", features = ["derive"] }
crossterm = "=0.28.1"
ratatui = "=0.28.1"
tui-textarea = "=0.6.1"
