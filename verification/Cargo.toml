[package]
name = "pulsar_scenedb"
version = "0.1.0"
edition = "2021"
publish = false

[dependencies]
ahash = "0.8"
serde_json = "1"
wgpu = "*"

[dev-dependencies]
rand = "0.8"
