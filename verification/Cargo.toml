[package]
name = "nx_core"
version = "0.1.0"
edition = "2021"
publish = false

[dependencies]
vt100-ctt = "*"
xxhash-rust = { version = "*", features = ["xxh3"] }
rayon = "*"
portable-pty = "*"
crossterm = "*"
crossbeam-channel = "*"
anyhow = "*"
tracing = "*"
