[package]
name = "dm_cache"
version = "0.1.0"
edition = "2021"
publish = false

[dependencies]
sled = "*"
simd-json = "*"
jsonpath-rust = "*"
parking_lot = "*"
thiserror = "*"
