[package]
name = "holt"
version = "0.1.0"
edition = "2021"
publish = false

[dependencies]
smallvec = "1"
libc = "0.2"
