[package]
name = "dining_philosophers"
version = "0.1.0"
edition = "2021"
publish = false

[dependencies]
rand = "0.9"
mpi = { version = "0.8", default-features = false }
