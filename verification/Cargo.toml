[package]
name = "chunk_store"
version = "0.1.0"
edition = "2021"
publish = false

[dependencies]
arrow2 = { version = "0.17", default-features = false }
thiserror = "1.0"
emath = "0.28"
parking_lot = "0.12"
web-time = "1.1"
array-init = "2.1"
