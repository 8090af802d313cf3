[package]
name = "mmbus"
version = "0.5.0"
edition = "2021"
publish = false

[dependencies]
crc32c = "=0.6.9"
libc = "=0.2.191"
memmap2 = "=0.9.12"
pyo3 = { version = "=0.22.6", features = ["extension-module", "abi3-py311"] }
thiserror = "=1.0.69"
tracing = "=0.1.44"
