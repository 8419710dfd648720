[package]
name = "rusty_sat"
version = "0.1.0"
edition = "2021"
publish = false

[dependencies]
flate2 = "=1.1.10"
image = { version = "=0.25.10", default-features = false, features = ["png"] }
serde_norway = "=0.9.42"
serde_yaml = "=0.9.34"
