[package]
name = "zero"
version = "0.1.0"
edition = "2021"
publish = false

[dependencies]
flate2 = "1"
io-uring = "0.7"
libc = "0.2"
rayon = "1"
serde_json = "1"
