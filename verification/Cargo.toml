[package]
name = "async_kartoffel"
version = "0.1.0"
edition = "2021"
publish = false

[dependencies]
kartoffel = "*"
heapless = "0.8"
anyhow = "1"
ndarray = "0.16"
ndarray-stats = "0.6"
critical-section = { version = "1", features = ["std"] }
embassy-futures = "0.1"
