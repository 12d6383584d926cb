[package]
name = "dht"
version = "0.1.0"
edition = "2021"
publish = false

[dependencies]
sha1 = "0.6"
rand = "0.7"
num-bigint = { version = "0.3", features = ["rand"] }
rust-crypto = "0.2"
