[package]
name = "image_tagger"
version = "0.1.0"
edition = "2021"
publish = false

[dependencies]
image = "0.24"
clap = { version = "4", features = ["derive"] }
hf-hub = "0.3"
ndarray = "0.15"
ort = "=2.0.0-rc.13"
