[package]
name = "pathfinder2"
version = "0.1.0"
edition = "2021"
publish = false

[dependencies]
num-bigint = "0.4"
regex = "1"
json = "0.12"
serde = { version = "1", features = ["derive"] }
serde_json = "1"
lazy_static = "1"
