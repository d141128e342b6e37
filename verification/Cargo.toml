[package]
name = "weighted_space"
version = "0.1.0"
edition = "2021"
publish = false

[dependencies]
hyper = "=1.12.0"
tokio = { version = "=1.54.1", features = ["time"] }
