[package]
name = "porcupine_rs"
version = "0.1.0"
edition = "2021"
publish = false

[dependencies]
crossbeam = "0.8"
rayon = "1"
regex = "1"
serde = { version = "1", features = ["derive"] }
serde_json = "1"
