[package]
name = "sealable-trie"
version = "0.1.0"
edition = "2021"
publish = false

[dependencies]
anchor-lang = "=0.31.2"
derive_more = "=0.99.20"
ibc = "=0.57.0"
strum = { version = "=0.25.0", features = ["derive"] }
