[package]
name = "zeropool_memo"
version = "0.1.0"
edition = "2021"
publish = false

[dependencies]
chacha20poly1305 = "0.9"
sha3 = "0.10"
