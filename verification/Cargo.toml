[package]
name = "ipv6_nd"
version = "0.1.0"
edition = "2021"
publish = false

[dependencies]
byteorder = { version = "1.5", default-features = false }
heapless = "0.8"
