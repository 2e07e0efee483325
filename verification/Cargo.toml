[package]
name = "plonkish_backend"
version = "0.1.0"
edition = "2021"
publish = false

[dependencies]
halo2curves = "0.6.1"
halo2_proofs = "0.3.5"
rand = "0.8"
sha3 = "0.10"
