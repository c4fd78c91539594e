[package]
name = "tripwirs"
version = "0.1.0"
edition = "2021"
publish = false

[dependencies]
ring = "*"
rand = "*"
xxhash-rust = { version = "*", features = ["xxh3"] }
