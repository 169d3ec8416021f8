[package]
name = "massif"
version = "1.0.0"
edition = "2021"
publish = false

[dependencies]
anyhow = "1"
clap = { version = "4", features = ["derive"] }
gdal = "0.18"
image = { version = "=0.25.10", default-features = false, features = ["png", "webp"] }
kdam = { version = "=0.6.4", features = ["template"] }
pmtiles = { version = "=0.26.0", features = ["write"] }
rayon = "1"
rusqlite = { version = "=0.41.1", features = ["bundled"] }
serde = { version = "1", features = ["derive"] }
serde_json = "1"
webp = { version = "*", default-features = false }
