[package]
name = "sparse_merkle"
version = "0.1.0"
edition = "2021"
publish = false

[dependencies]
sha2 = "=0.10.9"
ff = "=0.13.1"

[dev-dependencies]
pasta_curves = "=0.5.2"
rand = "=0.8.8"
