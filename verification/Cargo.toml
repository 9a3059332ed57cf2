[package]
name = "storage_trie"
version = "0.1.0"
edition = "2021"
publish = false

[dependencies]
starknet-types-core = { version = "=1.0.0", features = ["hash"] }
