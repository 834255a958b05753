[package]
name = "nnsplit"
version = "0.1.0"
edition = "2021"
publish = false

[dependencies]
serde_json = "*"
minreq = "*"
url = "*"
thiserror = "*"
ndarray = "*"
tract-onnx = "*"
