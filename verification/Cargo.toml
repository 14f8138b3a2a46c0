[package]
name = "spdk"
version = "0.1.0"
edition = "2021"
publish = false

[dependencies]
anyhow = "=1.0.104"
bdk_coin_select = "=0.4.1"
bitcoin = "=0.32.102"
bitcoin_hashes = "=0.14.101"
psbt-v2 = { version = "=0.3.0", features = ["silent-payments"] }
rand = "=0.8.8"
secp256k1 = "=0.29.1"
