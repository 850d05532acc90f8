[package]
name = "painter_core"
version = "0.1.0"
edition = "2021"

[dependencies]
serde = { version = "1", features = ["derive"] }
bincode = "1.3"
glam = "*"
log = "0.4"
