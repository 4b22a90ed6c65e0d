[package]
name = "placard"
version = "0.1.0"
edition = "2021"
publish = false

[dependencies]
base64 = "=0.22.1"
flate2 = { version = "=1.1.10", features = ["zlib-rs"] }
serde_json = "=1.0.154"
ureq = "=3.5.1"
