[package]
name = "bloom_filters"
version = "0.1.0"
edition = "2021"
publish = false

[dependencies]
bitvec = "1"
seahash = "4"
rand = "0.8"
