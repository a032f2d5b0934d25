[package]
name = "phrase_search"
version = "0.1.0"
edition = "2021"
publish = false

[dependencies]
permutator = "*"
tiny-bip39 = "*"
wagyu-ethereum = "*"
wagyu-model = "*"
secp256k1 = "0.17"
rayon = "*"
clap = { version = "4", features = ["derive"] }
serde = { version = "1", features = ["derive"] }
toml = "*"
