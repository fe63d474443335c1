[package]
name = "skarve"
version = "0.1.0"
edition = "2021"
publish = false

[dependencies]
anyhow = "1"
blake3 = "1"
flate2 = "1"
gdal = "*"
gdal-sys = "*"
libc = "0.2"
num-bigint = "0.4"
num-rational = "0.4"
num-traits = "0.2"
reqwest = { version = "0.12", default-features = false, features = ["blocking"] }
serde = { version = "1", features = ["derive"] }
serde_json = "1"
sha2 = "0.10"
