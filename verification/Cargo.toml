[package]
name = "controller_pack_core"
version = "0.1.0"
edition = "2021"
publish = false

[dependencies]
serde = { version = "1", features = ["derive"] }
tracing = "0.1"
walkdir = "2"
