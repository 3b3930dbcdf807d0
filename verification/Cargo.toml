[package]
name = "minedmap"
version = "0.1.0"
edition = "2021"
publish = false

[dependencies]
anyhow = "1"
clap = { version = "4", features = ["derive"] }
fastnbt = "2"
flate2 = "1"
num-integer = "0.1"
serde = { version = "1", features = ["derive"] }
