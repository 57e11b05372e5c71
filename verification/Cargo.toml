[package]
name = "garage_core"
version = "0.1.0"
edition = "2021"
publish = false

[dependencies]
hex = "=0.4.3"
md-5 = "=0.10.6"
blake2 = "=0.10.6"
sha2 = "0.10"
zstd = "=0.13.3"
rand = "=0.8.8"
