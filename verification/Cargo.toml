[package]
name = "artools"
version = "0.1.0"
edition = "2021"
publish = false

[dependencies]
clap = { version = "4", features = ["derive"] }
colored = "3"
crossbeam-channel = "0.5"
flate2 = "1"
glob = "0.3"
ignore = "0.4"
regex = "1"
