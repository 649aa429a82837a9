[package]
name = "spiece"
version = "0.1.0"
edition = "2021"
publish = false

[dependencies]
darts = "*"
protobuf = "2"
rust_tokenizers = "*"
