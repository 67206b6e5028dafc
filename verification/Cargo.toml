[package]
name = "vision_core"
version = "0.1.0"
edition = "2021"
publish = false

[dependencies]
image = { version = "*", default-features = false, features = ["png", "jpeg"] }
imageproc = "*"
serde = { version = "*", features = ["derive"] }
serde_json = "*"
memmap2 = "*"
