[package]
name = "classic_structures"
version = "0.1.0"
edition = "2021"
publish = false

[dev-dependencies]
blake2-rfc = "0.2"
rand = "0.8"
