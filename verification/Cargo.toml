[package]
name = "peanutbutter"
version = "0.1.0"
edition = "2021"
publish = false

[dependencies]
ansi-to-tui = "7"
clap = { version = "4", features = ["derive"] }
crossterm = "0.28"
libc = "0.2"
nucleo-matcher = "0.3"
ratatui = "0.29"
serde = { version = "1", features = ["derive"] }
termimad = "*"
toml = "0.8"
