[package]
name = "ownable-std"
version = "0.1.0"
edition = "2021"
publish = false

[dependencies]
hex = "0.4"
serde = { version = "1", features = ["derive"] }
serde_json = "1"
serde_bytes = "0.11"
serde_with = "3"
ciborium = "0.2"
cosmwasm-std = "3"
schemars = "0.8"
alloy-sol-types = "0.8"
syn = "2"
quote = "1"
proc-macro2 = "1"
