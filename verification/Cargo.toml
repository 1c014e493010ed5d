[package]
name = "vectlite"
version = "0.1.0"
edition = "2021"
publish = false

[dependencies]
fs2 = "=0.4.3"
hnsw_rs = "=0.3.5"
napi = "2"
napi-derive = "2"
pyo3 = { version = "0.24", features = ["abi3-py39", "extension-module"] }
serde_json = "=1.0.154"
simsimd = "=6.5.16"
thiserror = "2"
