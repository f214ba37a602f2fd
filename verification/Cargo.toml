[package]
name = "snail_core"
version = "0.1.0"
edition = "2021"
publish = false

[dependencies]
redb = "2"
serde = { version = "1", features = ["derive"] }
serde_json = "1"
thiserror = "2"
pyo3 = "0.23"
