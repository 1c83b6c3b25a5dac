[package]
name = "p2p_all_to_all"
version = "0.1.0"
edition = "2021"
publish = false

[dependencies]
anyhow = "=1.0.104"
nvtx = "=1.3.0"
oneshot = { version = "=0.2.1", features = ["std"] }
pyo3 = { version = "=0.30.1", features = ["abi3-py39"] }
tracing = "=0.1.44"
