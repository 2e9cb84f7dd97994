[package]
name = "cujson"
version = "0.1.0"
edition = "2021"
publish = false

[dependencies]
serde_json = "1"
simd-json = "*"
clap = { version = "4", features = ["derive"] }
rayon = "1"
arrow-array = "*"
parquet = "*"
pyo3 = "*"
