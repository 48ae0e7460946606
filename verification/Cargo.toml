[package]
name = "mcproto"
version = "0.1.0"
edition = "2021"
publish = false

[dependencies]
aes = "*"
cfb8 = "*"
flate2 = "*"
uuid = "*"
futures-lite = "*"
