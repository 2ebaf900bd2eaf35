[package]
name = "massa_core"
version = "0.1.0"
edition = "2021"
publish = false

[dependencies]
crossbeam = "0.8"
nom = "7"
rand = "0.8"
tracing = { version = "0.1", features = ["log"] }

[dev-dependencies]
blake3 = "1"
unsigned-varint = "0.7"
