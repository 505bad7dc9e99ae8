[package]
name = "loggy"
version = "0.1.0"
edition = "2021"
publish = false

[dependencies]
memchr = "2"
regex = "1"
polling = "*"
libc = "0.2"
