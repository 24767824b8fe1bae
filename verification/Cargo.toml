[package]
name = "gemma4_text"
version = "0.1.0"
edition = "2021"
publish = false

[dependencies]
serde_json = "1"
hf-hub = { version = "0.4", default-features = false, features = ["ureq", "rustls-tls"] }
pyo3 = { version = "*", features = ["abi3"] }
