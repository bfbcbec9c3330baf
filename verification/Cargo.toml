[package]
name = "asterion"
version = "0.1.0"
edition = "2021"
publish = false

[dependencies]
anyhow = "*"
crossterm = "*"
itertools = "*"
rand = "*"
rand_chacha = "*"
ratatui = "*"
russh = "*"
tokio = { version = "*", default-features = false, features = ["rt-multi-thread", "macros", "sync", "time", "io-util", "net"] }
tokio-util = "*"
uuid = { version = "*", features = ["v4"] }
