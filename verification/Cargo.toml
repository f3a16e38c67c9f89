[package]
name = "tobdd"
version = "0.1.0"
edition = "2021"
publish = false

[dependencies]
ahash = "0.8"
cpu-time = "1.0"

[dev-dependencies]
flate2 = "1"
