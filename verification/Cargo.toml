[package]
name = "blocknet_crypto"
version = "0.1.0"
edition = "2021"
publish = false

[dependencies]
bulletproofs = "5.0"
curve25519-dalek = { version = "4.1", features = ["rand_core", "digest"] }
rand = "0.8"
sha2 = "0.10"
