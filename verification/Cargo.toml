[package]
name = "trace_reconstruction"
version = "0.1.0"
edition = "2021"
publish = false

[dependencies]
bitvec = "=1.0.1"
rand = "0.8"
