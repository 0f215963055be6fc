[package]
name = "ml-dsa"
version = "0.1.0"
edition = "2021"
publish = false

[dependencies]
sha3 = "0.10"
sha2 = "0.10"
rand_core = { version = "0.6", features = ["getrandom"] }
zeroize = "1"
serde_json = "1"
