[package]
name = "onnx-vulkan-core"
version = "0.1.0"
edition = "2021"
publish = false

[dependencies]
anyhow = "1"
env_logger = "0.11"
log = "0.4"
ort = { version = "=2.0.0-rc.10", default-features = false, features = ["std", "load-dynamic"] }
