[package]
name = "rustyxml"
version = "0.2.1"
edition = "2021"
publish = false

[dependencies]
memchr = "2"
lru = "*"
rayon = "1"
rustler = "*"
mimalloc = "*"
