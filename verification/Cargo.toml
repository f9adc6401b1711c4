[package]
name = "hi_sparse_bitset"
version = "0.5.1"
edition = "2021"
publish = false

[dependencies]
serde = "1"
base64 = "0.21"
arrayvec = "0.7"

[dev-dependencies]
rand = "0.8"
