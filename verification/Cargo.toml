[package]
name = "tbs"
version = "0.1.0"
edition = "2021"
publish = false

[dependencies]
bls12_381 = "0.8"
group = "0.13"
rand = "0.8"
rand_chacha = "0.3"
sha3 = "0.10"
hex = "0.4"
bitcoin = "0.32"
parity-scale-codec = { version = "3", features = ["derive"] }
serde = { version = "1", features = ["derive"] }
