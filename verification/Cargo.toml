[package]
name = "simd_sexp"
version = "0.1.0"
edition = "2021"
publish = false

[dependencies]
memchr = "2"
crossbeam-channel = "0.5"
crossbeam-utils = "0.8"
num_cpus = "1"

[dev-dependencies]
rand = "0.8"
