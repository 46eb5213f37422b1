[package]
name = "merkle_tree"
version = "0.1.0"
edition = "2021"
publish = false

[dependencies]
bit-vec = "*"
tiny-keccak = { version = "2.0", features = ["sha3"] }
