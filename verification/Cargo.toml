[package]
name = "nanolang"
version = "0.9.0"
edition = "2021"
publish = false

[dependencies]
serde_json = "1"
half = "2"
pollster = "0.4"
rustls = "0.23"
webpki-roots = "*"
wgpu = "*"
winit = "0.30"
