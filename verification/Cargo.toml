[package]
name = "miio_device"
version = "0.1.0"
edition = "2021"
publish = false

[dependencies]
pyo3 = "*"

[dev-dependencies]
serde_json = "*"
