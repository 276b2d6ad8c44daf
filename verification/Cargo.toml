[package]
name = "witness"
version = "0.1.0"
edition = "2021"
publish = false

[dependencies]
ruint = "1"

[dev-dependencies]
ark-bn254 = "0.5"
ark-ff = "0.5"
