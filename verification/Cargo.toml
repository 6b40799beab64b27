[package]
name = "vectorit-core"
version = "1.0.0"
edition = "2021"
publish = false

[dependencies]
image = { version = "=0.25.10", default-features = false, features = ["png", "jpeg", "bmp", "gif", "tiff"] }
palette = "=0.7.7"
vtracer = "=0.6.5"
visioncortex = "=0.8.10"
resvg = { version = "=0.49.0", default-features = false }
pdf-writer = "=0.15.0"
dxf = "=0.6.2"
serde = { version = "=1.0.229", features = ["derive"] }
thiserror = "=2.0.21"
base64 = "=0.22.1"
dirs = "=7.0.0"
arboard = { version = "=3.7.0", default-features = false, features = ["image-data"] }
tracing = "=0.1.44"
