[package]
name = "kreuzberg"
version = "0.1.0"
edition = "2021"
publish = false

[dependencies]
regex = "1"
image = { version = "0.25", default-features = false, features = ["png", "jpeg", "gif", "bmp", "tiff", "webp"] }
serde = { version = "1", features = ["derive"] }
serde_json = "1"
serde_yaml_ng = "*"
toml = "*"
serde_toon = "*"
dashmap = "*"
dirs = "*"
anyhow = "1"
tokio = { version = "1", features = ["rt", "rt-multi-thread", "sync"] }
tracing = "0.1"
comrak = { version = "*", default-features = false }
utoipa = "*"
rustler = "*"
