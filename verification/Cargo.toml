[package]
name = "rhythr"
version = "0.1.0"
edition = "2021"
publish = false

[dependencies]
bytemuck = { version = "=1.25.2", features = ["derive"] }
fontdue = "=0.9.5"
glam = { version = "=0.34.2", features = ["bytemuck"] }
image = { version = "=0.25.10", default-features = false, features = ["png", "jpeg", "webp", "bmp", "gif"] }
png = "=0.18.1"
pollster = "=1.0.1"
serde = { version = "=1.0.229", features = ["derive"] }
serde_json = "=1.0.154"
tempfile = "=3.27.0"
thiserror = "=2.0.21"
wgpu = "=30.0.1"
zip = { version = "=7.4.0", default-features = false, features = ["deflate"] }
