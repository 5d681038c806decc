[package]
name = "circuit_types"
version = "0.1.0"
edition = "2021"
publish = false

[dependencies]
rand = "0.8"
itybity = "*"
serde = { version = "1", features = ["derive"] }
thiserror = "1"
