[package]
name = "tapyrus_spv"
version = "0.1.0"
edition = "2021"
publish = false

[dependencies]
bitcoin_hashes = "=1.2.0"
rand = "=0.10.3"

[dev-dependencies]
hex = "=0.4.3"
