[package]
name = "qoi"
version = "0.1.0"
edition = "2021"
publish = false

[dependencies]
anyhow = "1"
byteorder = "1"
bytes = "1"
rgb = "0.8"
thiserror = "1"
