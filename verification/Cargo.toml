[package]
name = "kingfisher_bnb"
version = "0.1.0"
edition = "2021"
publish = false

[dependencies]
bitvec = "1"
clap = { version = "4", features = ["derive"] }
dashmap = "6"
parking_lot = "0.12"
rayon = "1"
pyo3 = "0.22"
