[package]
name = "recent_registry"
version = "0.1.0"
edition = "2021"
publish = false

[dependencies]
serde = { version = "*", features = ["derive"] }
serde_json = "*"
resvg = "*"
usvg = "*"
tiny-skia = "*"
