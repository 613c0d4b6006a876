[package]
name = "nitro"
version = "0.1.0"
edition = "2021"
publish = false

[dependencies]
rustix = { version = "1", features = ["event", "process"] }
swash = "0.2"
