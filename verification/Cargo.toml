[package]
name = "bpe_codec"
version = "0.1.0"
edition = "2021"
publish = false

[dependencies]
base64 = "*"
bstr = "*"
fancy-regex = "*"
serde = { version = "*", features = ["derive"] }
serde_with = "*"
rmp-serde = "*"
