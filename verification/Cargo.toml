[package]
name = "king_tiles"
version = "0.1.0"
edition = "2021"
publish = false

[dependencies]
anchor-lang = "=0.32.1"
ephemeral-rollups-sdk = { version = "=0.17.3", features = ["anchor-compat"] }
ephemeral-vrf-sdk = { version = "=0.17.3", features = ["anchor-compat"] }
