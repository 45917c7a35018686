[package]
name = "rutudu"
version = "0.1.0"
edition = "2021"
publish = false

[dependencies]
chrono = "0.4"
clap = "3"
crossterm = "0.25"
log = "0.4"
log4rs = "1"
regex = "1"
rusqlite = { version = "0.28", features = ["bundled"] }
tui = { version = "0.19", features = ["crossterm"], default-features = false }
