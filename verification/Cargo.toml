[package]
name = "lut"
version = "0.1.0"
edition = "2021"
publish = false

[dependencies]
clap = { version = "4", features = ["derive"] }
flate2 = "1"
hex = "0.4"
sha2 = "0.10"
