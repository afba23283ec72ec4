[package]
name = "jrl"
version = "0.1.0"
edition = "2021"
publish = false

[dependencies]
chrono = "0.4"
clap = { version = "4", features = ["derive"] }
crossterm = "0.28"
home = "0.5"
rand = "0.9"
rustyline = "14"
xxhash-rust = { version = "0.8", features = ["xxh3"] }
