[package]
name = "rusty_vessel"
version = "0.1.0"
edition = "2021"
publish = false

[dependencies]
chrono = { version = "0.4", default-features = false }
crossbeam = "0.8"
