[package]
name = "sf_ope"
version = "0.1.0"
edition = "2021"
publish = false

[dependencies]
byteorder = "1"
chacha20poly1305 = "0.10"
ope = "*"
rand = "0.8"
