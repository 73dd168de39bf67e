[package]
name = "randomizer"
version = "0.1.0"
edition = "2021"
publish = false

[dependencies]
rand = "0.8"
anyhow = "1"
chrono = "0.4"
colored = "2"
dunce = "1"
clap = { version = "4", features = ["derive"] }
