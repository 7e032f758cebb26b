[package]
name = "hi_counter"
version = "0.1.0"
edition = "2021"
publish = false

[dependencies]
systemstat = "=0.2.7"
nix = { version = "=0.31.3", features = ["feature"] }
rs-release = "=0.1.11"
