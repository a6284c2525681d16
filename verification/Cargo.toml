[package]
name = "quarry"
version = "0.1.0"
edition = "2021"
publish = false

[dependencies]
cid = "0.11"
multihash-codetable = { version = "*", features = ["sha2"] }
marble = "*"

[dev-dependencies]
rand = "0.8"
