[package]
name = "svo"
version = "0.1.0"
edition = "2021"
publish = false

[dependencies]
arbitrary-int = "1"
either = "1"
rayon = "1"
serde = { version = "1", features = ["derive"] }
bincode = "1"
