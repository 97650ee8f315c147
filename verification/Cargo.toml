[package]
name = "solana_sbpf"
version = "0.1.0"
edition = "2021"
publish = false

[dependencies]
dynasm = "5"
dynasmrt = "5"
libc = "=0.2.191"
rand = { version = "=0.8.8", features = ["small_rng"] }
