[package]
name = "zkvecdb"
version = "0.1.0"
edition = "2021"
publish = false

[dependencies]
ark-bn254 = "=0.5.0"
ark-ff = "=0.5.0"
light-poseidon = "=0.4.1"

[dev-dependencies]
rand = "=0.8.8"
