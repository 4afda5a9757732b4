[package]
name = "geotree"
version = "0.1.0"
edition = "2021"
publish = false

[dependencies]
bytemuck = "1"
geo = { version = "0.30", features = ["use-serde"] }
memmap2 = "0.9"
serde = { version = "1", features = ["derive"] }
axum = "0.8"
tokio = { version = "1", features = ["rt-multi-thread", "macros", "net"] }
tower-http = { version = "0.6", features = ["fs", "trace"] }
bincode = "1"
image = { version = "0.25", default-features = false, features = ["png", "jpeg", "tiff"] }
gdal = "*"
