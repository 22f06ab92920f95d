[package]
name = "quick_xmltodict"
version = "0.1.0"
edition = "2021"
publish = false

[dependencies]
quick-xml = "0.31"
pyo3 = { version = "0.21", features = ["extension-module"] }
