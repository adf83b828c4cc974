[package]
name = "userspace_fs"
version = "0.1.0"
edition = "2021"
publish = false

[dependencies]
pyo3 = { version = "0.22", features = ["extension-module", "abi3-py38"] }
thiserror = "1"
