[package]
name = "ncg_core"
version = "0.1.0"
edition = "2021"
publish = false

[dependencies]
rand = "0.8"
regex = "1"
clap = { version = "4", features = ["derive"] }
colored = "2"
