[package]
name = "blkmine"
version = "0.1.0"
edition = "2021"
publish = false

[dependencies]
bytes = "=1.12.1"
rayon = "=1.12.0"
blake2 = "=0.10.6"
