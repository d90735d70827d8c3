[package]
name = "histogram"
version = "0.1.0"
edition = "2021"
publish = false

[dependencies]
serde = { version = "=1.0.229", features = ["derive"] }
schemars = "=1.2.3"

[dev-dependencies]
rand = "0.10"
