[package]
name = "mping"
version = "0.1.0"
edition = "2021"
publish = false

[dependencies]
rand = "0.9"
ipnet = "*"
tokio = { version = "*", features = ["rt-multi-thread", "macros", "time"] }
surge-ping = "*"
clap = { version = "*", features = ["derive"] }
crossterm = "*"
ratatui = "*"
futures = "*"
parking_lot = "*"
signal-hook = "*"
