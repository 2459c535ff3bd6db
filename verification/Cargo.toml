[package]
name = "interleaver"
version = "0.1.0"
edition = "2021"
publish = false

[dependencies]
bytes = "=1.12.1"
futures = "=0.3.34"
tokio = { version = "=1.53.2", features = ["full"] }
warp = { version = "=0.4.3", features = ["multipart", "server"] }
