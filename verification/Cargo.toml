[package]
name = "metrics_rs"
version = "0.1.0"
edition = "2021"

[dependencies]
anyhow = "1"

[dev-dependencies]
approx = "0.5"
