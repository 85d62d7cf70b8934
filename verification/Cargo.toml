[package]
name = "utility_belt"
version = "0.1.0"
edition = "2021"
publish = false

[dependencies]
rand = "=0.8.8"

[dev-dependencies]
ndarray = "*"
thunderdome = "=0.6.1"
