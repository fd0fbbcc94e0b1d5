[package]
name = "blockchain_protocol"
version = "0.1.0"
edition = "2021"
publish = false

[dependencies]
k256 = "0.13"
sha256 = { version = "1", default-features = false }
rand = "0.8"
