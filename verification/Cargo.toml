[package]
name = "milli_http"
version = "0.1.0"
edition = "2021"
publish = false

[dependencies]
ed25519-dalek = "2"
heapless = "0.8"
