[package]
name = "sumpig"
version = "0.1.0"
edition = "2021"
publish = false

[dependencies]
blake3 = { version = "1", features = ["rayon"] }
clap = { version = "4", features = ["derive"] }
crossbeam-channel = "0.5"
indicatif = "*"
jwalk = "0.8"
libc = "0.2"
