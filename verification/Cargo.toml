[package]
name = "libflo_audio"
version = "0.1.0"
edition = "2021"
publish = false

[dependencies]
serde = { version = "*", features = ["derive"] }
serde_bytes = "*"
rmp-serde = "*"
rustfft = "*"
