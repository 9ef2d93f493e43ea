[package]
name = "codecs"
version = "0.1.0"
edition = "2021"
publish = false

[dependencies]
sha2 = "*"
unicode-normalization = "*"
crc32fast = "*"
flate2 = "*"
serde_json = "*"
ndarray = "*"
rayon = "*"
base64 = "*"
clap = { version = "*", features = ["derive"] }
