[package]
name = "banqi-core"
version = "0.1.0"
edition = "2021"
publish = false

[dependencies]
rand = "0.8"
serde = { version = "1", features = ["derive"] }
ndarray = { version = "0.15", features = ["serde"] }
