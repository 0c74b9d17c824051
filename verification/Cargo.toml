[package]
name = "tile_sight"
version = "0.1.0"
edition = "2021"
publish = false

[dependencies]
ggez = "0.7"
mint = "0.5"
rand = "0.8"
serde = { version = "1", features = ["derive"] }
serde_json = "1"
