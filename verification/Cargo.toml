[package]
name = "cbonsai"
version = "0.1.0"
edition = "2021"
publish = false

[dependencies]
rand = "0.8"
rand_chacha = "0.3"
colored = "2"
crossterm = "0.27"
clap = { version = "4", features = ["derive"] }
