[package]
name = "taskstore"
version = "0.1.0"
edition = "2021"
publish = false

[dependencies]
anchor-lang = "=0.31.2"
solana-pubkey = { version = "2", features = ["curve25519"] }
