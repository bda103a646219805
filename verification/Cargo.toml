[package]
name = "whisper_stream"
version = "0.1.0"
edition = "2021"
publish = false

[dependencies]
burn = { version = "0.16", default-features = false, features = ["std", "wgpu"] }
hound = "3.5"
strum = { version = "0.26", features = ["derive"] }
