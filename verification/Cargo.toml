[package]
name = "bitrust"
version = "0.1.0"
edition = "2021"
publish = false

[dependencies]
sled = "*"
xxhash-rust = { version = "*", features = ["xxh3"] }
rand = "*"
walkdir = "*"
rayon = "*"
