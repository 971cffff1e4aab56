[package]
name = "commit_verify"
version = "0.1.0"
edition = "2021"
publish = false

[dependencies]
bitcoin_hashes = "0.11"
rand = "0.8"
